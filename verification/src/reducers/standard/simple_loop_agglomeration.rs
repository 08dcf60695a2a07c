//! Loops of places and transitions that only pass one token on.
use vstd::prelude::*;
use crate::ids::{PlaceId, TransitionId};
use crate::marking::{add_into, fits, increasing, insert_key, lemma_with_key, with_key};
use crate::modifications::{
    lemma_agglomerations_add, lemma_agglomerations_one, log_view, Agglomeration, Modification, ModificationView,
};
use crate::reducers::reduce::{grows, ConservativeReduce, Reduce};
use crate::reducers::standard::parallel_place_reducer::{lemma_without_all, without_all};
use crate::standard::net::{Net, NetView};

verus! {

/// The transitions and the places of a loop, each in increasing order.
pub struct Partition {
    transitions: Vec<TransitionId>,
    places: Vec<PlaceId>,
}

/// What a partition holds.
pub struct PartitionView {
    /// The transitions, in increasing order.
    pub transitions: Seq<TransitionId>,
    /// The places, in increasing order.
    pub places: Seq<PlaceId>,
}

impl PartitionView {
    /// The transitions and the places are in increasing order.
    pub open spec fn wf(self) -> bool {
        increasing(self.transitions) && increasing(self.places)
    }

    /// The partition with the transition and the place put in.
    pub open spec fn add(self, tr: TransitionId, pl: PlaceId) -> PartitionView {
        PartitionView { transitions: with_key(self.transitions, tr), places: with_key(self.places, pl) }
    }

    /// The partition without anything.
    pub open spec fn empty() -> PartitionView {
        PartitionView { transitions: Seq::empty(), places: Seq::empty() }
    }
}

impl View for Partition {
    type V = PartitionView;

    closed spec fn view(&self) -> PartitionView {
        PartitionView { transitions: self.transitions@, places: self.places@ }
    }
}

impl Partition {
    /// A partition without anything.
    pub fn new() -> (p: Self)
        ensures
            p@ == PartitionView::empty(),
            p@.wf(),
    {
        Partition { transitions: Vec::new(), places: Vec::new() }
    }

    /// Puts the transition and the place into the partition, each where the order wants
    /// it and only if it is not there.
    pub fn add(&mut self, tr: TransitionId, pl: PlaceId)
        requires
            old(self)@.wf(),
        ensures
            final(self)@.wf(),
            final(self)@ == old(self)@.add(tr, pl),
    {
        insert_key(&mut self.transitions, tr);
        insert_key(&mut self.places, pl);
    }

    /// The transitions, in increasing order.
    pub fn transitions(&self) -> (t: &Vec<TransitionId>)
        ensures
            t@ == self@.transitions,
    {
        &self.transitions
    }

    /// The places, in increasing order.
    pub fn places(&self) -> (p: &Vec<PlaceId>)
        ensures
            p@ == self@.places,
    {
        &self.places
    }
}

/// The search for the loops of a net: the state of the walk through its transitions.
pub struct SimpleLoopAgglomerationGraph {
    /// The number of each transition in the order of the walk, once it was reached.
    nums: Vec<Option<usize>>,
    /// The least number that can be reached from each transition.
    access: Vec<Option<usize>>,
    /// Whether each transition waits on the stack.
    in_stack: Vec<bool>,
    /// The loops that were found.
    partitions: Vec<Partition>,
    /// The number that the next transition gets.
    current_num: usize,
    /// The transitions that wait for their loop to be closed, each with the place it
    /// produces into.
    stack: Vec<(TransitionId, PlaceId)>,
}

/// What the search holds.
pub struct GraphView {
    pub nums: Seq<Option<usize>>,
    pub access: Seq<Option<usize>>,
    pub in_stack: Seq<bool>,
    pub partitions: Seq<PartitionView>,
    pub current_num: usize,
    pub stack: Seq<(TransitionId, PlaceId)>,
}

/// How many transitions were not reached.
pub open spec fn unvisited(nums: Seq<Option<usize>>) -> nat
    decreases nums.len(),
{
    if nums.len() == 0 {
        0
    } else if nums.last() is None {
        unvisited(nums.drop_last()) + 1
    } else {
        unvisited(nums.drop_last())
    }
}

/// The transition at `t` takes one token from one place and puts one token into one place.
pub open spec fn is_chain(net: NetView, t: int) -> bool {
    let tr = net.transitions[t];
    &&& 0 <= t < net.transitions.len()
    &&& tr.consume.len() == 1
    &&& tr.produce.len() == 1
    &&& tr.consume[0].1 == 1
    &&& tr.produce[0].1 == 1
}

/// The place that the chain transition `tr` produces into.
pub open spec fn target(net: NetView, tr: TransitionId) -> PlaceId {
    net.transitions[tr.0 as int].produce[0].0
}

impl GraphView {
    /// The search before it starts, for a net of `n` transitions.
    pub open spec fn start(n: nat) -> GraphView {
        GraphView {
            nums: Seq::new(n, |i: int| None),
            access: Seq::new(n, |i: int| None),
            in_stack: Seq::new(n, |i: int| false),
            partitions: Seq::empty(),
            current_num: 0,
            stack: Seq::empty(),
        }
    }

    /// The search fits a net of `n` transitions and `m` places.
    pub open spec fn wf(self, n: nat, m: nat) -> bool {
        &&& self.nums.len() == n
        &&& self.access.len() == n
        &&& self.in_stack.len() == n
        &&& self.current_num + unvisited(self.nums) == n
        &&& n <= usize::MAX
        &&& forall|i: int|
            0 <= i < self.stack.len() ==> (#[trigger] self.stack[i]).0.0 < n && self.stack[i].1.0 < m
        &&& forall|i: int|
            0 <= i < self.partitions.len() ==> (#[trigger] self.partitions[i]).wf() && forall|j: int|
                0 <= j < self.partitions[i].places.len() ==> (
                #[trigger] self.partitions[i].places[j]).0 < m
    }

    /// The transition `tr` is reached: it gets the next number and goes on the stack.
    pub open spec fn mark(self, tr: TransitionId, pl: PlaceId) -> GraphView {
        GraphView {
            nums: self.nums.update(tr.0 as int, Some(self.current_num)),
            access: self.access.update(tr.0 as int, Some(self.current_num)),
            in_stack: self.in_stack.update(tr.0 as int, true),
            current_num: (self.current_num + 1) as usize,
            stack: self.stack.push((tr, pl)),
            ..self
        }
    }

    /// The least number reachable from `source` is lowered to `value`, if that is less.
    pub open spec fn lower(self, source: TransitionId, value: Option<usize>) -> GraphView {
        match (self.access[source.0 as int], value) {
            (Some(a), Some(b)) => GraphView {
                access: self.access.update(
                    source.0 as int,
                    Some(
                        if a <= b {
                            a
                        } else {
                            b
                        },
                    ),
                ),
                ..self
            },
            _ => self,
        }
    }

    /// The stack is taken down to `source`: what comes off goes into `found` and waits
    /// no more.
    pub open spec fn pop_to(self, source: TransitionId, found: PartitionView) -> (
        GraphView,
        PartitionView,
    )
        decreases self.stack.len(),
    {
        if self.stack.len() == 0 {
            (self, found)
        } else {
            let top = self.stack.last();
            let next = GraphView {
                stack: self.stack.drop_last(),
                in_stack: self.in_stack.update(top.0.0 as int, false),
                ..self
            };
            if top.0 == source {
                (next, found.add(top.0, top.1))
            } else {
                next.pop_to(source, found.add(top.0, top.1))
            }
        }
    }

    /// The loop of `source` is closed: the stack is taken down to it, and what came off
    /// is a loop if it has more than one transition and more than one place.
    pub open spec fn close(self, source: TransitionId) -> GraphView {
        let popped = self.pop_to(source, PartitionView::empty());
        if popped.1.transitions.len() > 1 && popped.1.places.len() > 1 {
            GraphView { partitions: popped.0.partitions.push(popped.1), ..popped.0 }
        } else {
            popped.0
        }
    }
}

/// The walk from the transition `tr`: if it is a chain transition that was not reached,
/// it is marked, the walk goes on from each chain transition that consumes what it
/// produces, and its loop is closed if no transition that was reached before it can be
/// reached from it.
pub open spec fn walk(net: NetView, g: GraphView, tr: TransitionId) -> GraphView
    decreases unvisited(g.nums), 0nat, 0nat,
{
    if tr.0 < g.nums.len() && g.nums[tr.0 as int] is None && is_chain(net, tr.0 as int) {
        let marked = g.mark(tr, target(net, tr));
        if unvisited(marked.nums) < unvisited(g.nums) {
            let visited = visit(net, marked, tr, 0);
            if visited.access[tr.0 as int] == visited.nums[tr.0 as int] {
                visited.close(tr)
            } else {
                visited
            }
        } else {
            g
        }
    } else {
        g
    }
}

/// The walk through the consumers of the place that `source` produces into, from the
/// `j`-th on.
pub open spec fn visit(net: NetView, g: GraphView, source: TransitionId, j: nat) -> GraphView
    decreases unvisited(g.nums), 1nat, net.places[target(net, source).0 as int].consumed_by.len() - j,
{
    let consumers = net.places[target(net, source).0 as int].consumed_by;
    if j >= consumers.len() {
        g
    } else {
        let t = consumers[j as int].0;
        let next = if t.0 < g.nums.len() && is_chain(net, t.0 as int) {
            if g.nums[t.0 as int] is None {
                let walked = walk(net, g, t);
                let kept = if unvisited(walked.nums) <= unvisited(g.nums) {
                    walked
                } else {
                    g
                };
                kept.lower(source, kept.access[t.0 as int])
            } else if g.in_stack[t.0 as int] {
                g.lower(source, g.nums[t.0 as int])
            } else {
                g
            }
        } else {
            g
        };
        if unvisited(next.nums) <= unvisited(g.nums) {
            visit(net, next, source, j + 1)
        } else {
            next
        }
    }
}

/// The walk from each of the first `n` transitions that was not reached.
pub open spec fn walked(net: NetView, n: nat) -> GraphView
    decreases n,
{
    if n == 0 {
        GraphView::start(net.transitions.len())
    } else {
        walk(net, walked(net, (n - 1) as nat), TransitionId((n - 1) as usize))
    }
}

/// The loops of the net.
pub open spec fn loops(net: NetView) -> Seq<PartitionView> {
    walked(net, net.transitions.len()).partitions
}

/// One more transition reached is one less not reached.
pub proof fn lemma_unvisited_update(nums: Seq<Option<usize>>, i: int, v: usize)
    requires
        0 <= i < nums.len(),
    ensures
        nums[i] is None ==> unvisited(nums.update(i, Some(v))) + 1 == unvisited(nums),
        nums[i] is Some ==> unvisited(nums.update(i, Some(v))) == unvisited(nums),
    decreases nums.len(),
{
    let n = nums.len() - 1;
    if i == n {
        assert(nums.update(i, Some(v)).drop_last() =~= nums.drop_last());
    } else {
        lemma_unvisited_update(nums.drop_last(), i, v);
        assert(nums.update(i, Some(v)).drop_last() =~= nums.drop_last().update(i, Some(v)));
    }
}

/// Where a transition was not reached, some transition is not reached.
pub proof fn lemma_unvisited_positive(nums: Seq<Option<usize>>, i: int)
    requires
        0 <= i < nums.len(),
        nums[i] is None,
    ensures
        unvisited(nums) > 0,
    decreases nums.len(),
{
    if i < nums.len() - 1 {
        lemma_unvisited_positive(nums.drop_last(), i);
    }
}

/// At the start no transition is reached.
pub proof fn lemma_unvisited_start(n: nat)
    ensures
        unvisited(Seq::new(n, |i: int| None::<usize>)) == n,
    decreases n,
{
    if n > 0 {
        lemma_unvisited_start((n - 1) as nat);
        assert(Seq::new(n, |i: int| None::<usize>).drop_last() =~= Seq::new(
            (n - 1) as nat,
            |i: int| None::<usize>,
        ));
    }
}

impl View for SimpleLoopAgglomerationGraph {
    type V = GraphView;

    closed spec fn view(&self) -> GraphView {
        GraphView {
            nums: self.nums@,
            access: self.access@,
            in_stack: self.in_stack@,
            partitions: self.partitions@.map_values(|p: Partition| p@),
            current_num: self.current_num,
            stack: self.stack@,
        }
    }
}

impl SimpleLoopAgglomerationGraph {
    /// The search before it starts, for a net of `node_count` transitions.
    pub fn new(node_count: usize) -> (g: Self)
        ensures
            g@ == GraphView::start(node_count as nat),
            forall|m: nat| g@.wf(node_count as nat, m),
    {
        let mut nums: Vec<Option<usize>> = Vec::new();
        let mut access: Vec<Option<usize>> = Vec::new();
        let mut in_stack: Vec<bool> = Vec::new();
        let mut i: usize = 0;
        while i < node_count
            invariant
                i <= node_count,
                nums@.len() == i,
                access@.len() == i,
                in_stack@.len() == i,
                forall|j: int| 0 <= j < i ==> #[trigger] nums@[j] is None,
                forall|j: int| 0 <= j < i ==> #[trigger] access@[j] is None,
                forall|j: int| 0 <= j < i ==> !#[trigger] in_stack@[j],
            decreases node_count - i,
        {
            nums.push(None);
            access.push(None);
            in_stack.push(false);
            i += 1;
        }
        let g = Self {
            nums,
            access,
            in_stack,
            partitions: Vec::new(),
            current_num: 0,
            stack: Vec::new(),
        };
        proof {
            let s = GraphView::start(node_count as nat);
            assert(g@.nums =~= s.nums);
            assert(g@.access =~= s.access);
            assert(g@.in_stack =~= s.in_stack);
            assert(g@.partitions =~= s.partitions);
            assert(g@.stack =~= s.stack);
            lemma_unvisited_start(node_count as nat);
        }
        g
    }

    /// Whether the transition at `t` is a chain transition.
    fn chain(net: &Net, t: usize) -> (b: bool)
        ensures
            b == is_chain(net@, t as int),
    {
        if t >= net.transitions.len() {
            return false;
        }
        let tr = &net.transitions[t];
        tr.consume.len() == 1 && tr.produce.len() == 1 && tr.consume.entry(0).1 == 1
            && tr.produce.entry(0).1 == 1
    }

    /// Lowers the least number reachable from `source` to `value`, if that is less.
    fn lower(&mut self, source: TransitionId, value: Option<usize>)
        requires
            source.0 < old(self)@.access.len(),
        ensures
            final(self)@ == old(self)@.lower(source, value),
    {
        match (self.access[source.0], value) {
            (Some(a), Some(b)) => {
                self.access.set(
                    source.0,
                    Some(
                        if a <= b {
                            a
                        } else {
                            b
                        },
                    ),
                );
            },
            _ => {},
        }
    }

    /// Closes the loop of `source`.
    fn close(&mut self, source: TransitionId, Ghost(n): Ghost<nat>, Ghost(m): Ghost<nat>)
        requires
            old(self)@.wf(n, m),
        ensures
            final(self)@.wf(n, m),
            final(self)@ == old(self)@.close(source),
            final(self)@.nums == old(self)@.nums,
    {
        let mut component = Partition::new();
        let ghost start = self@;
        loop
            invariant_except_break
                self@.pop_to(source, component@) == start.pop_to(source, PartitionView::empty()),
            invariant
                self@.wf(n, m),
                component@.wf(),
                forall|j: int|
                    0 <= j < component@.places.len() ==> (#[trigger] component@.places[j]).0 < m,
                self@.nums == start.nums,
                self@.partitions == start.partitions,
                start == old(self)@,
            ensures
                (self@, component@) == start.pop_to(source, PartitionView::empty()),
            decreases self@.stack.len(),
        {
            let ghost before = self@;
            let ghost found = component@;
            match self.stack.pop() {
                None => {
                    break ;
                },
                Some((tr, pl)) => {
                    proof {
                        assert(before.stack[before.stack.len() - 1].0.0 < n);
                        lemma_with_key(found.places, pl);
                    }
                    component.add(tr, pl);
                    self.in_stack.set(tr.0, false);
                    proof {
                        let next = GraphView {
                            stack: before.stack.drop_last(),
                            in_stack: before.in_stack.update(tr.0 as int, false),
                            ..before
                        };
                        assert(self@.stack =~= next.stack);
                        assert(self@ == next);
                        assert forall|j: int| 0 <= j < self@.stack.len() implies (
                        #[trigger] self@.stack[j]).0.0 < n && self@.stack[j].1.0 < m by {
                            assert(self@.stack[j] == before.stack[j]);
                        }
                        assert forall|j: int| 0 <= j < component@.places.len() implies (
                        #[trigger] component@.places[j]).0 < m by {
                            let q = component@.places[j];
                            assert(component@.places.contains(q));
                            if found.places.contains(q) {
                                let k = choose|k: int| 0 <= k < found.places.len() && found.places[k] == q;
                                assert(found.places[k].0 < m);
                            }
                        }
                    }
                    if tr == source {
                        break ;
                    }
                },
            }
        }
        if component.transitions.len() > 1 && component.places.len() > 1 {
            let ghost parts = self@.partitions;
            let ghost c = component@;
            let ghost before_push = self@;
            self.partitions.push(component);
            proof {
                assert(self@.partitions =~= parts.push(c));
                assert(self@.stack == before_push.stack);
                assert(self@.nums == before_push.nums);
                assert forall|i: int| 0 <= i < self@.stack.len() implies (
                #[trigger] self@.stack[i]).0.0 < n && self@.stack[i].1.0 < m by {
                    assert(self@.stack[i] == before_push.stack[i]);
                }
                assert forall|i: int| 0 <= i < self@.partitions.len() implies (
                #[trigger] self@.partitions[i]).wf() && forall|j: int|
                    0 <= j < self@.partitions[i].places.len() ==> (
                    #[trigger] self@.partitions[i].places[j]).0 < m by {
                    if i < parts.len() {
                        assert(self@.partitions[i] == parts[i]);
                        assert(parts[i].wf());
                    } else {
                        assert(self@.partitions[i] == c);
                    }
                }
            }
        }
    }
}

impl SimpleLoopAgglomerationGraph {
    /// Walks on from the transition `source_tr`.
    pub fn walk(&mut self, net: &Net, source_tr: TransitionId)
        requires
            net.wf(),
            old(self)@.wf(net@.transitions.len(), net@.places.len()),
        ensures
            final(self)@.wf(net@.transitions.len(), net@.places.len()),
            final(self)@ == walk(net@, old(self)@, source_tr),
            unvisited(final(self)@.nums) <= unvisited(old(self)@.nums),
        decreases unvisited(old(self)@.nums),
    {
        let ghost n = net@.transitions.len();
        let ghost m = net@.places.len();
        let ghost g = self@;
        let i = source_tr.0;
        if i >= self.nums.len() || self.nums[i].is_some() || !Self::chain(net, i) {
            return ;
        }
        proof {
            net@.lemma_transition_arcs_live(i as int);
            lemma_unvisited_update(g.nums, i as int, g.current_num);
            lemma_unvisited_positive(g.nums, i as int);
            assert(net@.valid_place(net@.transitions[i as int].produce[0].0));
        }
        let pl = net.transitions[i].produce.entry(0).0;
        self.nums.set(i, Some(self.current_num));
        self.access.set(i, Some(self.current_num));
        self.in_stack.set(i, true);
        self.current_num += 1;
        self.stack.push((source_tr, pl));
        let ghost marked = self@;
        proof {
            assert(marked == g.mark(source_tr, target(net@, source_tr)));
            assert forall|k: int| 0 <= k < marked.stack.len() implies (#[trigger] marked.stack[k]).0.0
                < n && marked.stack[k].1.0 < m by {
                if k < g.stack.len() {
                    assert(marked.stack[k] == g.stack[k]);
                }
            }
        }
        let count = net.places[pl.0].consumed_by.len();
        let mut j: usize = 0;
        while j < count
            invariant
                j <= count,
                net.wf(),
                n == net@.transitions.len(),
                m == net@.places.len(),
                i == source_tr.0,
                i < n,
                pl == target(net@, source_tr),
                pl.0 < m,
                count == net@.places[pl.0 as int].consumed_by.len(),
                self@.wf(n, m),
                unvisited(self@.nums) <= unvisited(marked.nums),
                unvisited(marked.nums) < unvisited(old(self)@.nums),
                visit(net@, self@, source_tr, j as nat) == visit(net@, marked, source_tr, 0),
            decreases count - j,
        {
            let ghost before = self@;
            let t = net.places[pl.0].consumed_by.entry(j).0;
            if t.0 < self.nums.len() && Self::chain(net, t.0) {
                if self.nums[t.0].is_none() {
                    self.walk(net, t);
                    let a = self.access[t.0];
                    self.lower(source_tr, a);
                } else if self.in_stack[t.0] {
                    let v = self.nums[t.0];
                    self.lower(source_tr, v);
                }
            }
            proof {
                assert(self@.nums.len() == n);
            }
            j += 1;
        }
        let closing = match (self.access[i], self.nums[i]) {
            (Some(a), Some(b)) => a == b,
            (None, None) => true,
            _ => false,
        };
        if closing {
            self.close(source_tr, Ghost(n), Ghost(m));
        }
    }

    /// Walks through the whole net and finds its loops.
    pub fn compute_partitions(&mut self, net: &Net)
        requires
            net.wf(),
            old(self)@ == GraphView::start(net@.transitions.len()),
        ensures
            final(self)@ == walked(net@, net@.transitions.len()),
            final(self)@.wf(net@.transitions.len(), net@.places.len()),
    {
        proof {
            lemma_unvisited_start(net@.transitions.len());
        }
        let n = net.transitions.len();
        let mut k: usize = 0;
        while k < n
            invariant
                k <= n,
                n == net@.transitions.len(),
                net.wf(),
                self@.wf(net@.transitions.len(), net@.places.len()),
                self@ == walked(net@, k as nat),
            decreases n - k,
        {
            self.walk(net, TransitionId(k));
            k += 1;
        }
    }

    /// The loops that were found.
    pub fn partitions(&self) -> (p: &Vec<Partition>)
        ensures
            p@.map_values(|x: Partition| x@) == self@.partitions,
    {
        &self.partitions
    }
}

/// The arcs of the first `n` of `places` to their consumers, added up.
pub open spec fn merged_consumed(net: NetView, places: Seq<PlaceId>, n: nat) -> Seq<
    (TransitionId, usize),
>
    decreases n,
{
    if n == 0 {
        Seq::empty()
    } else {
        add_into(
            merged_consumed(net, places, (n - 1) as nat),
            net.places[places[n - 1].0 as int].consumed_by,
        )
    }
}

/// The arcs of the first `n` of `places` from their producers, added up.
pub open spec fn merged_produced(net: NetView, places: Seq<PlaceId>, n: nat) -> Seq<
    (TransitionId, usize),
>
    decreases n,
{
    if n == 0 {
        Seq::empty()
    } else {
        add_into(
            merged_produced(net, places, (n - 1) as nat),
            net.places[places[n - 1].0 as int].produced_by,
        )
    }
}

/// The tokens of the first `n` of `places`, added up.
pub open spec fn tokens(net: NetView, places: Seq<PlaceId>, n: nat) -> nat
    decreases n,
{
    if n == 0 {
        0
    } else {
        tokens(net, places, (n - 1) as nat) + net.places[places[n - 1].0 as int].initial as nat
    }
}

/// The arcs and the tokens of the first `n` of `places` can be added up in the machine's
/// numbers.
pub open spec fn adds_up(net: NetView, places: Seq<PlaceId>, n: nat) -> bool
    decreases n,
{
    if n == 0 {
        true
    } else {
        &&& adds_up(net, places, (n - 1) as nat)
        &&& fits(
            merged_consumed(net, places, (n - 1) as nat),
            net.places[places[n - 1].0 as int].consumed_by,
        )
        &&& fits(
            merged_produced(net, places, (n - 1) as nat),
            net.places[places[n - 1].0 as int].produced_by,
        )
        &&& tokens(net, places, n) <= usize::MAX
    }
}

/// The places of a loop can be merged: they are places of the net, what they hold adds
/// up, and there is room for one more place.
pub open spec fn mergeable(net: NetView, places: Seq<PlaceId>) -> bool {
    &&& forall|i: int| 0 <= i < places.len() ==> net.valid_place(#[trigger] places[i])
    &&& adds_up(net, places, places.len())
    &&& net.places.len() < usize::MAX
}

/// The places of a loop, each with the coefficient one.
pub open spec fn each_once(places: Seq<PlaceId>) -> Seq<(PlaceId, isize)> {
    Seq::new(places.len(), |i: int| (places[i], 1isize))
}

/// The record of a merged loop: the new place holds the tokens of all its places.
pub open spec fn record(places: Seq<PlaceId>, new_pl: PlaceId) -> ModificationView {
    ModificationView::Agglomeration {
        new_place: new_pl,
        factor: 1,
        deleted_places: each_once(places),
        constant: 0,
    }
}

/// What merging the places of a loop makes of the net: a new place gets their arcs and
/// their tokens, and they are removed.
pub open spec fn merged(net: NetView, places: Seq<PlaceId>) -> (NetView, Seq<ModificationView>) {
    if mergeable(net, places) {
        let new_pl = PlaceId(net.places.len() as usize);
        (
            without_all(
                net.create_place().connect(
                    new_pl,
                    merged_consumed(net, places, places.len()),
                    merged_produced(net, places, places.len()),
                ).set_initial(new_pl, tokens(net, places, places.len()) as usize),
                places,
            ),
            seq![record(places, new_pl)],
        )
    } else {
        (net, Seq::empty())
    }
}

/// What merging the first `n` of the loops `parts` makes of the net, one after the other.
pub open spec fn merged_all(net: NetView, parts: Seq<PartitionView>, n: nat) -> (
    NetView,
    Seq<ModificationView>,
)
    decreases n,
{
    if n == 0 {
        (net, Seq::empty())
    } else {
        let before = merged_all(net, parts, (n - 1) as nat);
        let step = merged(before.0, parts[n - 1].places);
        (step.0, before.1 + step.1)
    }
}

/// The merged arcs of places of a well-formed net are sorted and lead to transitions of
/// the net that were not removed.
pub proof fn lemma_merged_live(net: NetView, places: Seq<PlaceId>, n: nat)
    requires
        net.wf(),
        n <= places.len(),
        forall|i: int| 0 <= i < places.len() ==> net.valid_place(#[trigger] places[i]),
    ensures
        crate::marking::sorted(merged_consumed(net, places, n)),
        crate::marking::sorted(merged_produced(net, places, n)),
        forall|j: int|
            0 <= j < merged_consumed(net, places, n).len() ==> net.valid_transition(
                (#[trigger] merged_consumed(net, places, n)[j]).0,
            ) && !net.transitions[merged_consumed(net, places, n)[j].0.0 as int].deleted,
        forall|j: int|
            0 <= j < merged_produced(net, places, n).len() ==> net.valid_transition(
                (#[trigger] merged_produced(net, places, n)[j]).0,
            ) && !net.transitions[merged_produced(net, places, n)[j].0.0 as int].deleted,
    decreases n,
{
    if n > 0 {
        lemma_merged_live(net, places, (n - 1) as nat);
        let p = places[n - 1];
        assert(net.valid_place(p));
        net.lemma_place_arcs_live(p.0 as int);
        let a = merged_consumed(net, places, (n - 1) as nat);
        let b = net.places[p.0 as int].consumed_by;
        let c = merged_consumed(net, places, n);
        crate::marking::lemma_add_into(a, b);
        assert forall|j: int| 0 <= j < c.len() implies net.valid_transition((#[trigger] c[j]).0)
            && !net.transitions[c[j].0.0 as int].deleted by {
            let k = c[j].0;
            assert(crate::marking::has_key(c, k));
            if crate::marking::has_key(a, k) {
                let x = crate::marking::position(a, k);
                assert(a[x].0 == k);
            } else {
                let x = crate::marking::position(b, k);
                assert(b[x].0 == k);
            }
        }
        let a2 = merged_produced(net, places, (n - 1) as nat);
        let b2 = net.places[p.0 as int].produced_by;
        let c2 = merged_produced(net, places, n);
        crate::marking::lemma_add_into(a2, b2);
        assert forall|j: int| 0 <= j < c2.len() implies net.valid_transition((#[trigger] c2[j]).0)
            && !net.transitions[c2[j].0.0 as int].deleted by {
            let k = c2[j].0;
            assert(crate::marking::has_key(c2, k));
            if crate::marking::has_key(a2, k) {
                let x = crate::marking::position(a2, k);
                assert(a2[x].0 == k);
            } else {
                let x = crate::marking::position(b2, k);
                assert(b2[x].0 == k);
            }
        }
    }
}

/// Once the places do not add up, more places do not either.
proof fn lemma_adds_up_prefix(net: NetView, places: Seq<PlaceId>, k: nat, n: nat)
    requires
        k <= n,
        adds_up(net, places, n),
    ensures
        adds_up(net, places, k),
    decreases n,
{
    if k < n {
        lemma_adds_up_prefix(net, places, k, (n - 1) as nat);
    }
}

/// Merges the places `places` into one new place, if they can be merged.
pub fn merge(net: &mut Net, places: &Vec<PlaceId>, modifications: &mut Vec<Modification>)
    requires
        old(net).wf(),
    ensures
        final(net).wf(),
        final(net)@ == merged(old(net)@, places@).0,
        log_view(final(modifications)@) == log_view(old(modifications)@) + merged(
            old(net)@,
            places@,
        ).1,
        grows(old(net)@, final(net)@, merged(old(net)@, places@).1),
{
    let ghost v = net@;
    let ghost log = log_view(modifications@);
    proof {
        assert(log + Seq::<ModificationView>::empty() =~= log);
    }
    if net.places.len() == usize::MAX {
        return ;
    }
    let mut consumed: crate::marking::Marking<TransitionId> = crate::marking::Marking::new();
    let mut produced: crate::marking::Marking<TransitionId> = crate::marking::Marking::new();
    let mut total: usize = 0;
    let mut deleted: Vec<(PlaceId, isize)> = Vec::new();
    let mut i: usize = 0;
    while i < places.len()
        invariant
            i <= places@.len(),
            net@ == v,
            v.wf(),
            consumed.wf(),
            produced.wf(),
            forall|j: int| 0 <= j < i ==> v.valid_place(#[trigger] places@[j]),
            adds_up(v, places@, i as nat),
            consumed@ == merged_consumed(v, places@, i as nat),
            produced@ == merged_produced(v, places@, i as nat),
            total == tokens(v, places@, i as nat),
            deleted@ == each_once(places@.take(i as int)),
        decreases places@.len() - i,
    {
        let pl = places[i];
        if pl.0 >= net.places.len() {
            assert(!v.valid_place(places@[i as int]));
            return ;
        }
        proof {
            assert(v.place_wf(pl.0 as int));
        }
        let place = &net.places[pl.0];
        let next_consumed = consumed.sum(&place.consumed_by);
        let next_produced = produced.sum(&place.produced_by);
        match (next_consumed, next_produced) {
            (Some(c), Some(p)) => {
                if total > usize::MAX - place.initial {
                    proof {
                        assert(!adds_up(v, places@, (i + 1) as nat));
                        if adds_up(v, places@, places@.len()) {
                            lemma_adds_up_prefix(v, places@, (i + 1) as nat, places@.len());
                        }
                    }
                    return ;
                }
                consumed = c;
                produced = p;
                total = total + place.initial;
            },
            _ => {
                proof {
                    assert(!adds_up(v, places@, (i + 1) as nat));
                    if adds_up(v, places@, places@.len()) {
                        lemma_adds_up_prefix(v, places@, (i + 1) as nat, places@.len());
                    }
                }
                return ;
            },
        }
        deleted.push((pl, 1));
        proof {
            assert(deleted@ =~= each_once(places@.take(i + 1)));
        }
        i += 1;
    }
    proof {
        assert(places@.take(places@.len() as int) =~= places@);
        assert(mergeable(v, places@));
        lemma_merged_live(v, places@, places@.len());
        v.lemma_create_place();
    }
    let consumed_arcs = consumed.to_vec();
    let produced_arcs = produced.to_vec();
    let new_pl = net.create_place();
    net.connect(new_pl, &consumed_arcs, &produced_arcs);
    net.set_initial(new_pl, total);
    let ghost base = net@;
    proof {
        lemma_without_all(base, places@);
        assert(places@.take(0) =~= Seq::<PlaceId>::empty());
    }
    let mut k: usize = 0;
    while k < places.len()
        invariant
            k <= places@.len(),
            base.wf(),
            net.wf(),
            forall|j: int| 0 <= j < places@.len() ==> base.valid_place(#[trigger] places@[j]),
            net@ == without_all(base, places@.take(k as int)),
            net@.places.len() == base.places.len(),
        decreases places@.len() - k,
    {
        proof {
            assert(places@.take(k + 1).drop_last() =~= places@.take(k as int));
            assert(places@.take(k + 1).last() == places@[k as int]);
            assert(base.valid_place(places@[k as int]));
        }
        net.delete_place(places[k]);
        k += 1;
    }
    proof {
        assert(places@.take(places@.len() as int) =~= places@);
    }
    let made = Modification::Agglomeration(
        Agglomeration { deleted_places: deleted, new_place: new_pl, constant: 0, factor: 1 },
    );
    proof {
        assert(made@ == record(places@, new_pl));
    }
    modifications.push(made);
    proof {
        assert(log_view(modifications@) =~= log + seq![record(places@, new_pl)]);
        lemma_agglomerations_one(record(places@, new_pl));
    }
}

/// Merges the places of each loop of a net into one place.
pub struct SimpleLoopAgglomeration;

impl SimpleLoopAgglomeration {
    /// The reduction of simple loops.
    pub fn new() -> Self {
        Self {  }
    }
}

impl ConservativeReduce for SimpleLoopAgglomeration {

}

impl Reduce for SimpleLoopAgglomeration {
    open spec fn outcome(&self, net: NetView) -> (NetView, Seq<ModificationView>) {
        merged_all(net, loops(net), loops(net).len())
    }

    fn reduce(&self, net: &mut Net, modifications: &mut Vec<Modification>) {
        let ghost v = net@;
        let ghost log = log_view(modifications@);
        let mut graph = SimpleLoopAgglomerationGraph::new(net.transitions.len());
        graph.compute_partitions(net);
        let ghost parts = loops(v);
        let partitions = graph.partitions();
        let mut i: usize = 0;
        proof {
            assert(log + Seq::<ModificationView>::empty() =~= log);
        }
        while i < partitions.len()
            invariant
                i <= partitions@.len(),
                partitions@.map_values(|x: Partition| x@) == parts,
                net.wf(),
                net@ == merged_all(v, parts, i as nat).0,
                log_view(modifications@) == log + merged_all(v, parts, i as nat).1,
                grows(v, net@, merged_all(v, parts, i as nat).1),
            decreases partitions@.len() - i,
        {
            let ghost before = net@;
            let ghost emitted = merged_all(v, parts, i as nat).1;
            proof {
                assert(parts[i as int] == partitions@[i as int]@);
            }
            merge(net, partitions[i].places(), modifications);
            proof {
                let step = merged(before, parts[i as int].places);
                assert(log + emitted + step.1 =~= log + (emitted + step.1));
                lemma_agglomerations_add(emitted, step.1);
            }
            i += 1;
        }
    }
}

} // verus!
