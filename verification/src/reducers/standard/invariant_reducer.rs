//! Places that an invariant of the net determines.
//!
//! The invariants are computed outside of this library, from the text of the net
//! without its disconnected nodes. Here the net is prepared for that, and the invariants
//! that come back are applied.
use vstd::prelude::*;
use crate::errors::NetError;
use crate::ids::{NodeId, PlaceId};
use crate::modifications::{
    lemma_agglomerations_add, lemma_agglomerations_one, log_view, Modification, ModificationView, Reduction,
};
use crate::reducers::reduce::grows;
use crate::standard::compact::{compact, place_map};
use crate::standard::net::{Net, NetView};
use crate::tina::export::{exported, ExporterBuilder};

verus! {

/// One term of an invariant: a place, by its name, and its coefficient.
#[derive(Debug)]
pub struct Member {
    /// The name of the place.
    pub item: String,
    /// The coefficient of the place.
    pub weight: isize,
}

/// An invariant of a net: the terms add up to the constant in every reachable marking.
#[derive(Debug)]
pub struct Invariant {
    /// The constant.
    pub constant: isize,
    /// The terms.
    pub eqn: Vec<Member>,
}

/// What an invariant holds.
pub struct InvariantView {
    /// The constant.
    pub constant: isize,
    /// The terms: the name of a place and its coefficient.
    pub eqn: Seq<(Seq<char>, isize)>,
}

impl View for Invariant {
    type V = InvariantView;

    open spec fn view(&self) -> InvariantView {
        InvariantView {
            constant: self.constant,
            eqn: Seq::new(self.eqn@.len(), |i: int| (self.eqn@[i].item@, self.eqn@[i].weight)),
        }
    }
}

/// The views of invariants.
pub open spec fn invariants_view(all: Seq<Invariant>) -> Seq<InvariantView> {
    all.map_values(|i: Invariant| i@)
}

/// Removes the places that an invariant of the net determines.
pub struct InvariantReducer;

/// The place of `net` that `name` stands for: `compact` knows the name as one of its
/// places, and `map` gives the place of `net` for it.
pub open spec fn place_named(net: NetView, small: NetView, map: Seq<PlaceId>, name: Seq<char>) -> Option<
    PlaceId,
> {
    match small.names.index_of(name) {
        Some(NodeId::Place(q)) => if q.0 < map.len() && net.valid_place(map[q.0 as int]) {
            Some(map[q.0 as int])
        } else {
            None
        },
        _ => None,
    }
}

/// The first `n` terms of `eqn` with their places, if each names a place.
pub open spec fn resolved(
    net: NetView,
    small: NetView,
    map: Seq<PlaceId>,
    eqn: Seq<(Seq<char>, isize)>,
    n: nat,
) -> Option<Seq<(PlaceId, isize)>>
    decreases n,
{
    if n == 0 {
        Some(Seq::empty())
    } else {
        match resolved(net, small, map, eqn, (n - 1) as nat) {
            None => None,
            Some(before) => match place_named(net, small, map, eqn[n - 1].0) {
                None => None,
                Some(pl) => Some(before.push((pl, eqn[n - 1].1))),
            },
        }
    }
}

/// Those of the first `n` terms whose coefficient is minus one.
pub open spec fn eliminated(terms: Seq<(PlaceId, isize)>, n: nat) -> Seq<PlaceId>
    decreases n,
{
    if n == 0 {
        Seq::empty()
    } else if terms[n - 1].1 == -1 {
        eliminated(terms, (n - 1) as nat).push(terms[n - 1].0)
    } else {
        eliminated(terms, (n - 1) as nat)
    }
}

/// Those of the first `n` terms whose coefficient is not minus one.
pub open spec fn others(terms: Seq<(PlaceId, isize)>, n: nat) -> Seq<(PlaceId, isize)>
    decreases n,
{
    if n == 0 {
        Seq::empty()
    } else if terms[n - 1].1 != -1 {
        others(terms, (n - 1) as nat).push(terms[n - 1])
    } else {
        others(terms, (n - 1) as nat)
    }
}

/// The record of an applied invariant: the other terms and the constant determine the
/// place that is removed.
pub open spec fn record(terms: Seq<(PlaceId, isize)>, constant: isize) -> ModificationView {
    ModificationView::Reduction {
        equals_to: others(terms, terms.len()),
        constant,
        deleted_places: seq![(eliminated(terms, terms.len())[0], 1isize)],
    }
}

/// What applying an invariant makes of the net: if each of its terms names a place and
/// one of them alone has the coefficient minus one, the place of that term is removed.
pub open spec fn applied(net: NetView, small: NetView, map: Seq<PlaceId>, inv: InvariantView) -> (
    NetView,
    Seq<ModificationView>,
) {
    match resolved(net, small, map, inv.eqn, inv.eqn.len()) {
        None => (net, Seq::empty()),
        Some(terms) => if eliminated(terms, terms.len()).len() == 1 {
            (
                net.delete_place(eliminated(terms, terms.len())[0]),
                seq![record(terms, inv.constant)],
            )
        } else {
            (net, Seq::empty())
        },
    }
}

/// What applying the first `n` of the invariants makes of the net, one after the other.
pub open spec fn applied_all(
    net: NetView,
    small: NetView,
    map: Seq<PlaceId>,
    all: Seq<InvariantView>,
    n: nat,
) -> (NetView, Seq<ModificationView>)
    decreases n,
{
    if n == 0 {
        (net, Seq::empty())
    } else {
        let before = applied_all(net, small, map, all, (n - 1) as nat);
        let step = applied(before.0, small, map, all[n - 1]);
        (step.0, before.1 + step.1)
    }
}

/// Once a term names no place, the terms behind it change nothing.
proof fn lemma_resolved_fails(
    net: NetView,
    small: NetView,
    map: Seq<PlaceId>,
    eqn: Seq<(Seq<char>, isize)>,
    k: nat,
    n: nat,
)
    requires
        k <= n,
        resolved(net, small, map, eqn, k) is None,
    ensures
        resolved(net, small, map, eqn, n) is None,
    decreases n,
{
    if k < n {
        lemma_resolved_fails(net, small, map, eqn, k, (n - 1) as nat);
    }
}

/// What is handed to the tool that computes the invariants.
pub struct Prepared {
    /// The net without its disconnected nodes.
    pub compact: Net,
    /// For each place of the compact net, the place of the net that it stands for.
    pub place_map: Vec<PlaceId>,
    /// The text of the compact net.
    pub text: String,
}

impl InvariantReducer {
    /// The reduction by invariants.
    pub fn new() -> Self {
        Self {  }
    }

    /// The net without its disconnected nodes, and its text, for the tool that computes
    /// the invariants.
    pub fn prepare(net: &Net) -> (r: Result<Prepared, NetError>)
        requires
            net.wf(),
        ensures
            match crate::timed::from_standard::converted(compact(net@, net@.transitions.len())) {
                Err(e) => r is Err && r->Err_0@ == e,
                Ok(timed) => match exported(timed, true, true) {
                    Err(e) => r is Err && r->Err_0@ == e,
                    Ok(text) => r is Ok && r->Ok_0.text@ == text && r->Ok_0.compact@ == compact(
                        net@,
                        net@.transitions.len(),
                    ) && r->Ok_0.compact.wf() && r->Ok_0.place_map@ == place_map(
                        net@,
                        net@.places.len(),
                    ),
                },
            },
    {
        let (small, _transition_map, place_map) = net.new_without_disconnected();
        let timed = crate::timed::net::Net::from_standard(&small)?;
        let exporter = ExporterBuilder::new().with_disconnected_transitions(true).with_all_places(
            true,
        ).build();
        let text = exporter.export(&timed)?;
        Ok(Prepared { compact: small, place_map, text })
    }

    /// The place of `net` that `name` stands for.
    fn place_named(net: &Net, small: &Net, map: &Vec<PlaceId>, name: &str) -> (r: Option<PlaceId>)
        requires
            small.wf(),
        ensures
            r == place_named(net@, small@, map@, name@),
    {
        match small.get_index_by_name(name) {
            Some(NodeId::Place(q)) => {
                if q.0 < map.len() && map[q.0].0 < net.places.len() {
                    Some(map[q.0])
                } else {
                    None
                }
            },
            _ => None,
        }
    }

    /// Applies one invariant to the net.
    pub fn apply_one(
        net: &mut Net,
        small: &Net,
        map: &Vec<PlaceId>,
        inv: &Invariant,
        modifications: &mut Vec<Modification>,
    )
        requires
            old(net).wf(),
            small.wf(),
        ensures
            final(net).wf(),
            final(net)@ == applied(old(net)@, small@, map@, inv@).0,
            log_view(final(modifications)@) == log_view(old(modifications)@) + applied(
                old(net)@,
                small@,
                map@,
                inv@,
            ).1,
            grows(old(net)@, final(net)@, applied(old(net)@, small@, map@, inv@).1),
    {
        let ghost v = net@;
        let ghost log = log_view(modifications@);
        let ghost eqn = inv@.eqn;
        proof {
            assert(log + Seq::<ModificationView>::empty() =~= log);
        }
        let mut gone: Vec<PlaceId> = Vec::new();
        let mut kept: Vec<(PlaceId, isize)> = Vec::new();
        let ghost mut terms = Seq::<(PlaceId, isize)>::empty();
        let mut i: usize = 0;
        while i < inv.eqn.len()
            invariant
                i <= inv.eqn@.len(),
                net@ == v,
                v.wf(),
                log == log_view(modifications@),
                small.wf(),
                eqn == inv@.eqn,
                terms.len() == i,
                resolved(v, small@, map@, eqn, i as nat) == Some(terms),
                gone@ == eliminated(terms, i as nat),
                kept@ == others(terms, i as nat),
                forall|j: int| 0 <= j < gone@.len() ==> v.valid_place(#[trigger] gone@[j]),
            decreases inv.eqn@.len() - i,
        {
            let member = &inv.eqn[i];
            match Self::place_named(net, small, map, member.item.as_str()) {
                None => {
                    proof {
                        lemma_resolved_fails(
                            v,
                            small@,
                            map@,
                            eqn,
                            (i + 1) as nat,
                            eqn.len(),
                        );
                    }
                    return ;
                },
                Some(pl) => {
                    proof {
                        let next = terms.push((pl, member.weight));
                        lemma_terms_prefix(terms, next, i as nat);
                        terms = next;
                    }
                    if member.weight == -1 {
                        gone.push(pl);
                    } else {
                        kept.push((pl, member.weight));
                    }
                },
            }
            i += 1;
        }
        if gone.len() != 1 {
            return ;
        }
        let place = gone[0];
        let made = Modification::Reduction(
            Reduction { equals_to: kept, constant: inv.constant, deleted_places: vec![(place, 1)] },
        );
        proof {
            assert(made@->Reduction_deleted_places =~= seq![(place, 1isize)]);
            assert(made@ == record(terms, inv@.constant));
        }
        net.delete_place(place);
        modifications.push(made);
        proof {
            assert(log_view(modifications@) =~= log + seq![record(terms, inv@.constant)]);
            lemma_agglomerations_one(record(terms, inv@.constant));
        }
    }

    /// Applies the invariants to the net, one after the other.
    ///
    /// `small` is the net that the invariants were computed for, and `map` gives for each
    /// of its places the place of `net` that it stands for. An invariant that names
    /// something else than places of `small`, or that has not one term alone with the
    /// coefficient minus one, is passed over.
    pub fn apply(
        net: &mut Net,
        small: &Net,
        map: &Vec<PlaceId>,
        invariants: &Vec<Invariant>,
        modifications: &mut Vec<Modification>,
    )
        requires
            old(net).wf(),
            small.wf(),
        ensures
            final(net).wf(),
            final(net)@ == applied_all(
                old(net)@,
                small@,
                map@,
                invariants_view(invariants@),
                invariants@.len(),
            ).0,
            log_view(final(modifications)@) == log_view(old(modifications)@) + applied_all(
                old(net)@,
                small@,
                map@,
                invariants_view(invariants@),
                invariants@.len(),
            ).1,
            grows(
                old(net)@,
                final(net)@,
                applied_all(
                    old(net)@,
                    small@,
                    map@,
                    invariants_view(invariants@),
                    invariants@.len(),
                ).1,
            ),
    {
        let ghost v = net@;
        let ghost log = log_view(modifications@);
        let ghost all = invariants_view(invariants@);
        let mut i: usize = 0;
        proof {
            assert(log + Seq::<ModificationView>::empty() =~= log);
        }
        while i < invariants.len()
            invariant
                i <= invariants@.len(),
                small.wf(),
                net.wf(),
                all == invariants_view(invariants@),
                net@ == applied_all(v, small@, map@, all, i as nat).0,
                log_view(modifications@) == log + applied_all(v, small@, map@, all, i as nat).1,
                grows(v, net@, applied_all(v, small@, map@, all, i as nat).1),
            decreases invariants@.len() - i,
        {
            let ghost before = net@;
            let ghost emitted = applied_all(v, small@, map@, all, i as nat).1;
            Self::apply_one(net, small, map, &invariants[i], modifications);
            proof {
                let step = applied(before, small@, map@, all[i as int]);
                assert(log + emitted + step.1 =~= log + (emitted + step.1));
                lemma_agglomerations_add(emitted, step.1);
            }
            i += 1;
        }
    }
}

/// Sorting terms by their coefficient does not look behind the terms it is asked for.
proof fn lemma_terms_prefix(a: Seq<(PlaceId, isize)>, b: Seq<(PlaceId, isize)>, n: nat)
    requires
        n <= a.len(),
        a.len() <= b.len(),
        forall|i: int| 0 <= i < a.len() ==> a[i] == b[i],
    ensures
        eliminated(a, n) == eliminated(b, n),
        others(a, n) == others(b, n),
    decreases n,
{
    if n > 0 {
        lemma_terms_prefix(a, b, (n - 1) as nat);
    }
}

} // verus!
