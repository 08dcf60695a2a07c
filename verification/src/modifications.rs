//! The records that a reduction leaves behind: what was removed, and the relation
//! between the markings of the net before and after.
use vstd::prelude::*;
use crate::ids::{PlaceId, TransitionId};

verus! {

/// Several places were merged into one new place.
///
/// It stands for `factor * new_place = deleted_places + constant`, each deleted place
/// taken with its coefficient.
#[derive(Clone, Debug, Eq, PartialEq)]
pub struct Agglomeration {
    /// The place that was created.
    pub new_place: PlaceId,
    /// The coefficient of the new place.
    pub factor: isize,
    /// The places that were removed, each with its coefficient.
    pub deleted_places: Vec<(PlaceId, isize)>,
    /// The constant of the equation.
    pub constant: isize,
}

/// Places were removed because other places determine them.
///
/// It stands for `equals_to + constant = deleted_places`.
#[derive(Clone, Debug, Eq, PartialEq)]
pub struct Reduction {
    /// The places that are kept, each with its coefficient.
    pub equals_to: Vec<(PlaceId, isize)>,
    /// The constant of the equation.
    pub constant: isize,
    /// The places that were removed, each with its coefficient.
    pub deleted_places: Vec<(PlaceId, isize)>,
}

/// Transitions were removed; no relation between markings comes with it.
#[derive(Clone, Debug, Eq, PartialEq)]
pub struct TransitionElimination {
    /// The transitions that were removed.
    pub deleted_transitions: Vec<TransitionId>,
}

/// Places were removed because other places bound them.
///
/// It stands for `kept_places + constant >= deleted_places`.
#[derive(Clone, Debug, Eq, PartialEq)]
pub struct InequalityReduction {
    /// The places that are kept, each with its coefficient.
    pub kept_places: Vec<(PlaceId, isize)>,
    /// The constant of the relation.
    pub constant: isize,
    /// The places that were removed, each with its coefficient.
    pub deleted_places: Vec<(PlaceId, isize)>,
}

/// One step of a reduction.
#[derive(Clone, Debug, Eq, PartialEq)]
pub enum Modification {
    /// Places merged into a new one.
    Agglomeration(Agglomeration),
    /// Places removed, with an equation.
    Reduction(Reduction),
    /// Transitions removed.
    TransitionElimination(TransitionElimination),
    /// Places removed, with an inequality.
    InequalityReduction(InequalityReduction),
}


/// What a record holds.
pub enum ModificationView {
    /// `factor * new_place = deleted_places + constant`.
    Agglomeration {
        new_place: PlaceId,
        factor: isize,
        deleted_places: Seq<(PlaceId, isize)>,
        constant: isize,
    },
    /// `equals_to + constant = deleted_places`.
    Reduction { equals_to: Seq<(PlaceId, isize)>, constant: isize, deleted_places: Seq<(PlaceId, isize)> },
    /// Transitions removed.
    TransitionElimination { deleted_transitions: Seq<TransitionId> },
    /// `kept_places + constant >= deleted_places`.
    InequalityReduction {
        kept_places: Seq<(PlaceId, isize)>,
        constant: isize,
        deleted_places: Seq<(PlaceId, isize)>,
    },
}

impl View for Modification {
    type V = ModificationView;

    open spec fn view(&self) -> ModificationView {
        match *self {
            Modification::Agglomeration(a) => ModificationView::Agglomeration {
                new_place: a.new_place,
                factor: a.factor,
                deleted_places: a.deleted_places@,
                constant: a.constant,
            },
            Modification::Reduction(r) => ModificationView::Reduction {
                equals_to: r.equals_to@,
                constant: r.constant,
                deleted_places: r.deleted_places@,
            },
            Modification::TransitionElimination(t) => ModificationView::TransitionElimination {
                deleted_transitions: t.deleted_transitions@,
            },
            Modification::InequalityReduction(i) => ModificationView::InequalityReduction {
                kept_places: i.kept_places@,
                constant: i.constant,
                deleted_places: i.deleted_places@,
            },
        }
    }
}

/// What a log of records holds.
pub open spec fn log_view(log: Seq<Modification>) -> Seq<ModificationView> {
    log.map_values(|m: Modification| m@)
}

/// The number of agglomerations among the records.
pub open spec fn agglomerations(log: Seq<ModificationView>) -> nat
    decreases log.len(),
{
    if log.len() == 0 {
        0
    } else if log.last() is Agglomeration {
        agglomerations(log.drop_last()) + 1
    } else {
        agglomerations(log.drop_last())
    }
}

/// The agglomerations of two logs, one after the other, add up.
pub proof fn lemma_agglomerations_add(a: Seq<ModificationView>, b: Seq<ModificationView>)
    ensures
        agglomerations(a + b) == agglomerations(a) + agglomerations(b),
    decreases b.len(),
{
    if b.len() == 0 {
        assert(a + b =~= a);
    } else {
        lemma_agglomerations_add(a, b.drop_last());
        assert((a + b).drop_last() =~= a + b.drop_last());
        assert((a + b).last() == b.last());
    }
}

/// One record is one agglomeration or none.
pub proof fn lemma_agglomerations_one(m: ModificationView)
    ensures
        agglomerations(seq![m]) == (if m is Agglomeration {
            1nat
        } else {
            0nat
        }),
{
    reveal_with_fuel(agglomerations, 2);
    assert(seq![m].drop_last() =~= Seq::<ModificationView>::empty());
}

/// The value of a sum of places, each taken with its coefficient, in the marking `m`.
pub open spec fn linear(terms: Seq<(PlaceId, isize)>, m: Map<PlaceId, int>) -> int
    decreases terms.len(),
{
    if terms.len() == 0 {
        0
    } else {
        linear(terms.drop_last(), m) + terms.last().1 * (if m.contains_key(terms.last().0) {
            m[terms.last().0]
        } else {
            0
        })
    }
}

impl ModificationView {
    /// The relation that the record states holds of the marking `m`, which gives the
    /// tokens of the places before and after the step.
    pub open spec fn holds(self, m: Map<PlaceId, int>) -> bool {
        match self {
            ModificationView::Agglomeration { new_place, factor, deleted_places, constant } => {
                factor * (if m.contains_key(new_place) {
                    m[new_place]
                } else {
                    0
                }) == linear(deleted_places, m) + constant
            },
            ModificationView::Reduction { equals_to, constant, deleted_places } => {
                linear(equals_to, m) + constant == linear(deleted_places, m)
            },
            ModificationView::TransitionElimination { .. } => true,
            ModificationView::InequalityReduction { kept_places, constant, deleted_places } => {
                linear(kept_places, m) + constant >= linear(deleted_places, m)
            },
        }
    }
}

} // verus!
