//! Turning a basic net into a timed net.
use vstd::prelude::*;
use crate::arc;
use crate::errors::{NetError, NetErrorView};
use crate::ids::{NodeId, PlaceId, TransitionId};
use crate::timed::embedding::{image, lemma_embedding};
use crate::timed::net::{Net, NetView};
use crate::tina::read_back::alike;
use crate::timed::place::PlaceView;
use crate::timed::transition::TransitionView;
use crate::standard::net::Net as Source;
use crate::standard::net::NetView as SourceView;
use crate::standard::transition::TransitionView as SourceTransition;

verus! {

/// The net in which the place `pl` has the tokens and the label given.
pub open spec fn with_place(net: NetView, pl: PlaceId, initial: usize, label: Option<Seq<char>>) -> NetView {
    NetView {
        places: net.places.update(
            pl.0 as int,
            PlaceView { initial, label, ..net.places[pl.0 as int] },
        ),
        ..net
    }
}

/// The net in which the transition `tr` has the label given.
pub open spec fn with_transition(net: NetView, tr: TransitionId, label: Option<Seq<char>>) -> NetView {
    NetView {
        transitions: net.transitions.update(
            tr.0 as int,
            TransitionView { label, ..net.transitions[tr.0 as int] },
        ),
        ..net
    }
}

/// The net in which the node `id` bears the name that `source` gives to `from`.
pub open spec fn named_alike(source: SourceView, from: NodeId, net: NetView, id: NodeId) -> Result<
    NetView,
    NetErrorView,
> {
    match source.names.name_of(from) {
        None => Err(
            match from {
                NodeId::Place(pl) => NetErrorView::InvalidPlace(pl),
                NodeId::Transition(tr) => NetErrorView::InvalidTransition(tr),
            },
        ),
        Some(name) => if net.can_rename(id, name) {
            Ok(net.rename_node(id, name))
        } else {
            Err(NetErrorView::DuplicatedName(name))
        },
    }
}

/// The net with a copy of the place at `i` of `source`: a new place with its tokens, its
/// label and its name.
pub open spec fn place_copied(source: SourceView, net: NetView, i: int) -> Result<
    NetView,
    NetErrorView,
> {
    if net.places.len() >= usize::MAX {
        Err(NetErrorView::InvalidPlace(PlaceId(i as usize)))
    } else {
        let pl = PlaceId(net.places.len() as usize);
        named_alike(
            source,
            NodeId::Place(PlaceId(i as usize)),
            with_place(net.create_place(), pl, source.places[i].initial, source.places[i].label),
            NodeId::Place(pl),
        )
    }
}

/// The net with copies of the first `n` places of `source`.
pub open spec fn places_copied(source: SourceView, net: NetView, n: nat) -> Result<
    NetView,
    NetErrorView,
>
    decreases n,
{
    if n == 0 {
        Ok(net)
    } else {
        match places_copied(source, net, (n - 1) as nat) {
            Err(e) => Err(e),
            Ok(before) => place_copied(source, before, n - 1),
        }
    }
}

/// The arcs of the copy `tr` of the transition `t`: those that consume, then those that
/// produce.
pub open spec fn arcs_of(t: SourceTransition, tr: TransitionId) -> Seq<arc::Kind> {
    Seq::new(
        t.consume.len() + t.produce.len(),
        |i: int|
            if i < t.consume.len() {
                arc::Kind::Consume(t.consume[i].0, tr, t.consume[i].1)
            } else {
                let j = i - t.consume.len();
                arc::Kind::Produce(t.produce[j].0, tr, t.produce[j].1)
            },
    )
}

/// The net with the first `n` of `arcs` added; an arc that the net cannot take gives
/// `InvalidArc`.
pub open spec fn arcs_added(net: NetView, arcs: Seq<arc::Kind>, n: nat) -> Result<
    NetView,
    NetErrorView,
>
    decreases n,
{
    if n == 0 {
        Ok(net)
    } else {
        match arcs_added(net, arcs, (n - 1) as nat) {
            Err(e) => Err(e),
            Ok(before) => if before.can_add(arcs[n - 1]) && (arcs[n - 1] is Consume || arcs[n - 1] is Produce) {
                Ok(before.add_arc(arcs[n - 1]))
            } else {
                Err(NetErrorView::InvalidArc)
            },
        }
    }
}

/// The net with a copy of the transition at `i` of `source`: a new transition with its
/// label, its name and its arcs.
pub open spec fn transition_copied(source: SourceView, net: NetView, i: int) -> Result<
    NetView,
    NetErrorView,
> {
    if net.transitions.len() >= usize::MAX {
        Err(NetErrorView::InvalidTransition(TransitionId(i as usize)))
    } else {
        let tr = TransitionId(net.transitions.len() as usize);
        match named_alike(
            source,
            NodeId::Transition(TransitionId(i as usize)),
            with_transition(net.create_transition(), tr, source.transitions[i].label),
            NodeId::Transition(tr),
        ) {
            Err(e) => Err(e),
            Ok(named) => arcs_added(
                named,
                arcs_of(source.transitions[i], tr),
                arcs_of(source.transitions[i], tr).len(),
            ),
        }
    }
}

/// The net with copies of the first `n` transitions of `source`.
pub open spec fn transitions_copied(source: SourceView, net: NetView, n: nat) -> Result<
    NetView,
    NetErrorView,
>
    decreases n,
{
    if n == 0 {
        Ok(net)
    } else {
        match transitions_copied(source, net, (n - 1) as nat) {
            Err(e) => Err(e),
            Ok(before) => transition_copied(source, before, n - 1),
        }
    }
}

/// The timed net that stands for the basic net `source`: its name, its places and
/// then its transitions, each with its arcs. A node that cannot be copied gives an error.
pub open spec fn converted(source: SourceView) -> Result<NetView, NetErrorView> {
    match places_copied(
        source,
        NetView { name: source.name, ..crate::timed::net::empty() },
        source.places.len(),
    ) {
        Err(e) => Err(e),
        Ok(with_places) => transitions_copied(source, with_places, source.transitions.len()),
    }
}

/// A copy of an optional string.
fn copy_label(label: &Option<String>) -> (r: Option<String>)
    ensures
        crate::standard::place::label_view(r) == crate::standard::place::label_view(*label),
{
    match label {
        Some(s) => Some(s.clone()),
        None => None,
    }
}

/// Gives the node `id` of `net` the name that `source` gives to `from`.
fn name_alike(source: &Source, from: NodeId, net: &mut Net, id: NodeId) -> (r: Result<(), NetError>)
    requires
        source.wf(),
        old(net).wf(),
    ensures
        match named_alike(source@, from, old(net)@, id) {
            Ok(n) => r is Ok && final(net)@ == n && n.wf() && n.places.len() == old(
                net,
            )@.places.len() && n.transitions.len() == old(net)@.transitions.len(),
            Err(e) => r is Err && r->Err_0@ == e,
        },
{
    match source.get_name_by_index(&from) {
        None => Err(
            match from {
                NodeId::Place(pl) => NetError::InvalidPlace(pl),
                NodeId::Transition(tr) => NetError::InvalidTransition(tr),
            },
        ),
        Some(name) => {
            proof {
                net@.lemma_rename_node(id, name@);
            }
            match net.rename_node(id, name.as_str()) {
                Ok(()) => Ok(()),
                Err(_) => Err(NetError::DuplicatedName(name)),
            }
        },
    }
}

/// Adds the arcs to the net, one after the other.
fn add_arcs(net: &mut Net, arcs: &Vec<arc::Kind>) -> (r: Result<(), NetError>)
    requires
        old(net).wf(),
    ensures
        match arcs_added(old(net)@, arcs@, arcs@.len()) {
            Ok(n) => r is Ok && final(net)@ == n && n.wf() && n.places.len() == old(
                net,
            )@.places.len() && n.transitions.len() == old(net)@.transitions.len(),
            Err(e) => r is Err && r->Err_0@ == e,
        },
{
    let ghost v = net@;
    let mut i: usize = 0;
    while i < arcs.len()
        invariant
            i <= arcs@.len(),
            net.wf(),
            arcs_added(v, arcs@, i as nat) == Ok::<NetView, NetErrorView>(net@),
            net@.places.len() == v.places.len(),
            net@.transitions.len() == v.transitions.len(),
            v == old(net)@,
        decreases arcs@.len() - i,
    {
        let a = arcs[i];
        let supported = match a {
            arc::Kind::Consume(_, _, _) => true,
            arc::Kind::Produce(_, _, _) => true,
            _ => false,
        };
        if !supported || !net.can_add_arc(&a) {
            proof {
                lemma_arcs_added_fails(v, arcs@, (i + 1) as nat, arcs@.len());
            }
            return Err(NetError::InvalidArc);
        }
        proof {
            net@.lemma_add_arc(a);
        }
        let _ = net.add_arc(a);
        i += 1;
    }
    Ok(())
}

/// Once an arc was refused, the arcs behind it change nothing.
proof fn lemma_arcs_added_fails(net: NetView, arcs: Seq<arc::Kind>, k: nat, n: nat)
    requires
        k <= n,
        arcs_added(net, arcs, k) is Err,
    ensures
        arcs_added(net, arcs, n) == arcs_added(net, arcs, k),
    decreases n,
{
    if k < n {
        lemma_arcs_added_fails(net, arcs, k, (n - 1) as nat);
    }
}

/// Once a place could not be copied, the places behind it change nothing.
proof fn lemma_places_copied_fails(source: SourceView, net: NetView, k: nat, n: nat)
    requires
        k <= n,
        places_copied(source, net, k) is Err,
    ensures
        places_copied(source, net, n) == places_copied(source, net, k),
    decreases n,
{
    if k < n {
        lemma_places_copied_fails(source, net, k, (n - 1) as nat);
    }
}

/// Once a transition could not be copied, the transitions behind it change nothing.
proof fn lemma_transitions_copied_fails(source: SourceView, net: NetView, k: nat, n: nat)
    requires
        k <= n,
        transitions_copied(source, net, k) is Err,
    ensures
        transitions_copied(source, net, n) == transitions_copied(source, net, k),
    decreases n,
{
    if k < n {
        lemma_transitions_copied_fails(source, net, k, (n - 1) as nat);
    }
}

/// The arcs of the copy `tr` of the transition `t`.
fn collect_arcs(t: &crate::standard::transition::Transition, tr: TransitionId) -> (arcs: Vec<arc::Kind>)
    ensures
        arcs@ == arcs_of(t@, tr),
{
    let mut arcs: Vec<arc::Kind> = Vec::new();
    let mut i: usize = 0;
    while i < t.consume.len()
        invariant
            i <= t@.consume.len(),
            arcs@.len() == i,
            forall|j: int| 0 <= j < i ==> arcs@[j] == arcs_of(t@, tr)[j],
        decreases t@.consume.len() - i,
    {
        let e = t.consume.entry(i);
        arcs.push(arc::Kind::Consume(e.0, tr, e.1));
        i += 1;
    }
    let mut k: usize = 0;
    while k < t.produce.len()
        invariant
            k <= t@.produce.len(),
            arcs@.len() == t@.consume.len() + k,
            forall|j: int| 0 <= j < arcs@.len() ==> arcs@[j] == arcs_of(t@, tr)[j],
        decreases t@.produce.len() - k,
    {
        let e = t.produce.entry(k);
        arcs.push(arc::Kind::Produce(e.0, tr, e.1));
        k += 1;
    }
    assert(arcs@ =~= arcs_of(t@, tr));
    arcs
}

/// Copies the place at `i` of `source` into `net`.
fn copy_place(source: &Source, net: &mut Net, i: usize) -> (r: Result<(), NetError>)
    requires
        source.wf(),
        old(net).wf(),
        i < source@.places.len(),
    ensures
        match place_copied(source@, old(net)@, i as int) {
            Ok(n) => r is Ok && final(net)@ == n && n.wf(),
            Err(e) => r is Err && r->Err_0@ == e,
        },
{
    if net.places.len() == usize::MAX {
        return Err(NetError::InvalidPlace(PlaceId(i)));
    }
    let pl = net.create_place();
    let ghost created = net@;
    let ghost want = with_place(
        created,
        pl,
        source@.places[i as int].initial,
        source@.places[i as int].label,
    );
    proof {
        created.lemma_same_arcs(want);
    }
    net.places[pl.0].initial = source.places[i].initial;
    net.places[pl.0].label = copy_label(&source.places[i].label);
    proof {
        assert(net@.places =~= want.places);
        assert(net@.transitions =~= want.transitions);
    }
    name_alike(source, NodeId::Place(PlaceId(i)), net, NodeId::Place(pl))
}

/// Copies the transition at `i` of `source` into `net`.
fn copy_transition(source: &Source, net: &mut Net, i: usize) -> (r: Result<(), NetError>)
    requires
        source.wf(),
        old(net).wf(),
        i < source@.transitions.len(),
    ensures
        match transition_copied(source@, old(net)@, i as int) {
            Ok(n) => r is Ok && final(net)@ == n && n.wf(),
            Err(e) => r is Err && r->Err_0@ == e,
        },
{
    if net.transitions.len() == usize::MAX {
        return Err(NetError::InvalidTransition(TransitionId(i)));
    }
    let tr = net.create_transition();
    let ghost created = net@;
    let ghost want = with_transition(created, tr, source@.transitions[i as int].label);
    proof {
        created.lemma_same_arcs(want);
    }
    net.transitions[tr.0].label = copy_label(&source.transitions[i].label);
    proof {
        assert(net@.places =~= want.places);
        assert(net@.transitions =~= want.transitions);
    }
    name_alike(source, NodeId::Transition(TransitionId(i)), net, NodeId::Transition(tr))?;
    let arcs = collect_arcs(&source.transitions[i], tr);
    add_arcs(net, &arcs)
}

impl Net {
    /// The timed net that stands for the basic net `source`.
    ///
    /// The nodes keep their places in the net, their names, labels, tokens and arcs.
    /// Every transition gets the time range `[0, ∞)` and no priority. What was removed
    /// from the basic net is there in the timed net, without arcs. A well-formed net is
    /// always turned into a timed net: the result is never an error.
    pub fn from_standard(source: &Source) -> (r: Result<Net, NetError>)
        requires
            source.wf(),
        ensures
            match converted(source@) {
                Ok(n) => r is Ok && r->Ok_0@ == n && r->Ok_0.wf(),
                Err(e) => r is Err && r->Err_0@ == e,
            },
            r is Ok,
            alike(image(source@), r->Ok_0@),
    {
        let mut net = Net::new();
        proof {
            net@.lemma_same_arcs(NetView { name: source@.name, ..net@ });
        }
        net.name = source.name.clone();
        let ghost start = net@;
        let mut i: usize = 0;
        while i < source.places.len()
            invariant
                i <= source@.places.len(),
                source.wf(),
                net.wf(),
                start == (NetView { name: source@.name, ..crate::timed::net::empty() }),
                places_copied(source@, start, i as nat) == Ok::<NetView, NetErrorView>(net@),
            decreases source@.places.len() - i,
        {
            match copy_place(source, &mut net, i) {
                Ok(()) => {},
                Err(e) => {
                    proof {
                        lemma_places_copied_fails(
                            source@,
                            start,
                            (i + 1) as nat,
                            source@.places.len(),
                        );
                        lemma_embedding(source@);
                    }
                    return Err(e);
                },
            }
            i += 1;
        }
        let ghost with_places = net@;
        let mut k: usize = 0;
        while k < source.transitions.len()
            invariant
                k <= source@.transitions.len(),
                source.wf(),
                net.wf(),
                converted(source@) == transitions_copied(
                    source@,
                    with_places,
                    source@.transitions.len(),
                ),
                transitions_copied(source@, with_places, k as nat) == Ok::<NetView, NetErrorView>(
                    net@,
                ),
            decreases source@.transitions.len() - k,
        {
            match copy_transition(source, &mut net, k) {
                Ok(()) => {},
                Err(e) => {
                    proof {
                        lemma_transitions_copied_fails(
                            source@,
                            with_places,
                            (k + 1) as nat,
                            source@.transitions.len(),
                        );
                        lemma_embedding(source@);
                    }
                    return Err(e);
                },
            }
            k += 1;
        }
        proof {
            lemma_embedding(source@);
        }
        Ok(net)
    }
}

} // verus!
