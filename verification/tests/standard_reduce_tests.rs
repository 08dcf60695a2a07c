use pnets::arc::Kind;
use pnets::modifications::{
    Agglomeration, InequalityReduction, Modification, Reduction, TransitionElimination,
};
use pnets::reducers::standard::invariant_reducer::{Invariant, Member};
use pnets::reducers::chains::{
    new_compact, new_compact_extra, new_extra, new_redundant, new_redundant_compact,
    new_redundant_compact_extra, new_redundant_extra,
};
use pnets::reducers::standard::rl_reducer::{find_fan, fuse, FoundFan};
use pnets::reducers::standard::{
    IdentityPlaceReducer, IdentityTransitionReducer, InvariantReducer, ParallelPlaceReducer,
    ParallelTransitionReducer, PseudoStart, R7Reducer, RLReducer, SimpleChainReducer,
    SimpleLoopAgglomeration, SourceSinkReducer, WeightSimplification,
};
use pnets::reducers::{
    ChainReducer, IdentityReducer, LoopReducer, PlaceReduce, Reduce, SmartReducer,
    TransitionReduce,
};
use pnets::standard::Net;
use pnets::tina::parser::Parser;
use pnets::{PlaceId, TransitionId};

fn read(text: &str) -> Net {
    Net::from_timed(&Parser::new(text.as_bytes()).parse().unwrap()).unwrap()
}

fn place(net: &Net, name: &str) -> PlaceId {
    net.get_index_by_name(name).unwrap().as_place().unwrap()
}

fn transition(net: &Net, name: &str) -> TransitionId {
    net.get_index_by_name(name).unwrap().as_transition().unwrap()
}

fn symmetric(net: &Net) -> bool {
    for p in 0..net.places.len() {
        for t in 0..net.transitions.len() {
            let pl = PlaceId::from(p);
            let tr = TransitionId::from(t);
            if net[tr].consume[pl] != net[pl].consumed_by[tr]
                || net[tr].produce[pl] != net[pl].produced_by[tr]
                || net[tr].consume.contains(pl) != net[pl].consumed_by.contains(tr)
                || net[tr].produce.contains(pl) != net[pl].produced_by.contains(tr)
            {
                return false;
            }
        }
    }
    true
}

#[test]
fn simple_chain_agglomeration() {
    let mut net = read("tr t1 p1 -> p2\n");
    let mut modifications = vec![];
    SimpleChainReducer::new().reduce(&mut net, &mut modifications);
    assert_eq!(
        modifications[0],
        Modification::Agglomeration(Agglomeration {
            deleted_places: vec![
                (net.get_index_by_name("p1").unwrap().as_place().unwrap(), 1),
                (net.get_index_by_name("p2").unwrap().as_place().unwrap(), 1)
            ],
            new_place: PlaceId::from(net.places.len() - 1),
            constant: 0,
            factor: 1,
        })
    );
}

#[test]
fn parallel_transitions_fusion() {
    let mut net = read("tr t0 p0 -> p1\ntr t1 p0 -> p1\n");
    let mut modifications = vec![];
    ParallelTransitionReducer::new().reduce(&mut net, &mut modifications);
    assert_eq!(
        modifications[0],
        Modification::TransitionElimination(TransitionElimination {
            deleted_transitions: vec![net
                .get_index_by_name("t1")
                .unwrap()
                .as_transition()
                .unwrap()]
        })
    );
}

#[test]
fn parallel_places_fusion() {
    let mut net = read("tr t0 p2 p1 -> p2 p1\n");
    let mut modifications = vec![];
    ParallelPlaceReducer::new().reduce(&mut net, &mut modifications);
    assert_eq!(
        modifications[0],
        Modification::Reduction(Reduction {
            deleted_places: vec![(net.get_index_by_name("p1").unwrap().as_place().unwrap(), 1)],
            equals_to: vec![(net.get_index_by_name("p2").unwrap().as_place().unwrap(), 1)],
            constant: 0,
        })
    );
}

#[test]
fn constant_places_elimination() {
    let mut net = read("pl p1 (5)\ntr t1 p2 -> p3\n");
    let mut modifications = vec![];
    IdentityPlaceReducer::new().reduce(&mut net, &mut modifications);
    assert_eq!(
        modifications[0],
        Modification::Reduction(Reduction {
            deleted_places: vec![(net.get_index_by_name("p1").unwrap().as_place().unwrap(), 1)],
            equals_to: vec![],
            constant: 5,
        })
    );
}

#[test]
fn source_sink_convert() {
    let mut net = read("pl p1 (5)\ntr t1 p1 -> \n");
    let mut modifications = vec![];
    SourceSinkReducer::new().reduce(&mut net, &mut modifications);
    assert_eq!(
        modifications[0],
        Modification::InequalityReduction(InequalityReduction {
            deleted_places: vec![(net.get_index_by_name("p1").unwrap().as_place().unwrap(), 1)],
            kept_places: vec![],
            constant: 5,
        })
    );
}

#[test]
fn self_loop_place_elimination() {
    let mut net = read("pl p1 (5)\ntr t1 p1 p2 -> p1 p3\n");
    let mut modifications = vec![];
    IdentityPlaceReducer::new().reduce(&mut net, &mut modifications);

    assert_eq!(
        modifications[0],
        Modification::Reduction(Reduction {
            deleted_places: vec![(net.get_index_by_name("p1").unwrap().as_place().unwrap(), 1)],
            equals_to: vec![],
            constant: 5,
        })
    );
}

#[test]
fn self_loop_transition_elimination() {
    let mut net = read("tr t1 p1 -> p1\n");
    let mut modifications = vec![];
    IdentityTransitionReducer::new().reduce(&mut net, &mut modifications);

    assert_eq!(
        modifications[0],
        Modification::TransitionElimination(TransitionElimination {
            deleted_transitions: vec![net
                .get_index_by_name("t1")
                .unwrap()
                .as_transition()
                .unwrap()]
        })
    );
}

#[test]
fn scenario_parallel_places() {
    let mut net = Net::default();
    let p1 = net.create_place();
    let p2 = net.create_place();
    let t = net.create_transition();
    net.add_arc(Kind::Produce(p1, t, 1)).unwrap();
    net.add_arc(Kind::Produce(p2, t, 1)).unwrap();
    net.add_arc(Kind::Consume(p1, t, 1)).unwrap();
    net.add_arc(Kind::Consume(p2, t, 1)).unwrap();
    let mut log = vec![];
    ParallelPlaceReducer::new().reduce(&mut net, &mut log);
    assert!(net[p2].deleted);
    assert!(!net[p1].deleted);
    assert_eq!(
        log,
        vec![Modification::Reduction(Reduction {
            deleted_places: vec![(p2, 1)],
            equals_to: vec![(p1, 1)],
            constant: 0,
        })]
    );
    assert!(symmetric(&net));
}

#[test]
fn scenario_parallel_transitions() {
    let mut net = Net::default();
    let p0 = net.create_place();
    let p1 = net.create_place();
    let t1 = net.create_transition();
    let t2 = net.create_transition();
    for t in [t1, t2] {
        net.add_arc(Kind::Consume(p0, t, 2)).unwrap();
        net.add_arc(Kind::Produce(p1, t, 3)).unwrap();
    }
    let mut log = vec![];
    ParallelTransitionReducer::new().reduce(&mut net, &mut log);
    assert!(net[t2].deleted);
    assert!(!net[t1].deleted);
    assert_eq!(
        log,
        vec![Modification::TransitionElimination(TransitionElimination {
            deleted_transitions: vec![t2],
        })]
    );
    assert!(symmetric(&net));
}

#[test]
fn parallel_rules_need_the_same_weights() {
    let mut net = read("tr t0 p0 -> p1*2\ntr t1 p0 -> p1\ntr t2 a b*2 -> a b\n");
    let mut log = vec![];
    ParallelTransitionReducer::new().reduce(&mut net, &mut log);
    ParallelPlaceReducer::new().reduce(&mut net, &mut log);
    assert_eq!(log, vec![]);
}

#[test]
fn scenario_identity_place() {
    let mut net = Net::default();
    let p = net.create_place();
    let t = net.create_transition();
    net.add_arc(Kind::Produce(p, t, 1)).unwrap();
    net.add_arc(Kind::Consume(p, t, 1)).unwrap();
    net.set_initial(p, 5);
    let mut log = vec![];
    IdentityPlaceReducer::new().reduce(&mut net, &mut log);
    assert!(net[p].deleted);
    assert!(net[p].is_disconnected());
    assert!(net[t].is_disconnected());
    assert_eq!(
        log,
        vec![Modification::Reduction(Reduction {
            deleted_places: vec![(p, 1)],
            equals_to: vec![],
            constant: 5,
        })]
    );
}

#[test]
fn scenario_source_sink() {
    let mut net = Net::default();
    let p = net.create_place();
    let t = net.create_transition();
    net.add_arc(Kind::Consume(p, t, 1)).unwrap();
    net.set_initial(p, 5);
    let mut log = vec![];
    SourceSinkReducer::new().reduce(&mut net, &mut log);
    assert!(net[p].deleted);
    assert_eq!(
        log,
        vec![Modification::InequalityReduction(InequalityReduction {
            deleted_places: vec![(p, 1)],
            kept_places: vec![],
            constant: 5,
        })]
    );
    // the other name of the rule does the same
    let mut net = read("pl p (2)\ntr t p -> \n");
    let mut log = vec![];
    R7Reducer::new().reduce(&mut net, &mut log);
    assert_eq!(
        log,
        vec![Modification::InequalityReduction(InequalityReduction {
            deleted_places: vec![(PlaceId::from(0), 1)],
            kept_places: vec![],
            constant: 2,
        })]
    );
}

#[test]
fn source_sink_needs_a_transition_that_produces_nothing() {
    let mut net = read("pl p (5)\ntr t p -> q\n");
    let mut log = vec![];
    SourceSinkReducer::new().reduce(&mut net, &mut log);
    assert_eq!(log, vec![]);
    assert!(!net[place(&net, "p")].deleted);
}

#[test]
fn scenario_simple_chain() {
    let mut net = Net::default();
    let p0 = net.create_place();
    let p1 = net.create_place();
    let t = net.create_transition();
    let before = net.create_transition();
    let after = net.create_transition();
    net.add_arc(Kind::Consume(p0, t, 1)).unwrap();
    net.add_arc(Kind::Produce(p1, t, 1)).unwrap();
    net.add_arc(Kind::Produce(p0, before, 2)).unwrap();
    net.add_arc(Kind::Consume(p1, after, 3)).unwrap();
    net.set_initial(p0, 4);
    let mut log = vec![];
    SimpleChainReducer::new().transition_reduce(&mut net, t, &mut log);
    let new_place = PlaceId::from(2);
    assert_eq!(net.places.len(), 3);
    assert_eq!(net[new_place].initial, 4);
    assert_eq!(net[new_place].produced_by[before], 2);
    assert_eq!(net[new_place].consumed_by[after], 3);
    assert_eq!(net[new_place].consumed_by[t], 0);
    assert!(net[p0].deleted && net[p1].deleted && net[t].deleted);
    assert_eq!(
        log,
        vec![Modification::Agglomeration(Agglomeration {
            new_place,
            factor: 1,
            deleted_places: vec![(p0, 1), (p1, 1)],
            constant: 0,
        })]
    );
    assert!(symmetric(&net));
}

#[test]
fn simple_chain_needs_an_empty_destination_with_one_producer() {
    let mut net = read("pl p1 (1)\ntr t p0 -> p1\n");
    let mut log = vec![];
    SimpleChainReducer::new().reduce(&mut net, &mut log);
    assert_eq!(log, vec![]);
    let mut net = read("tr t p0 -> p1\ntr u x -> p1\n");
    let mut log = vec![];
    SimpleChainReducer::new().reduce(&mut net, &mut log);
    assert_eq!(log, vec![]);
    let mut net = read("tr t p0*2 -> p1\n");
    let mut log = vec![];
    SimpleChainReducer::new().reduce(&mut net, &mut log);
    assert_eq!(log, vec![]);
}

#[test]
fn weight_simplification_divides_by_the_initial_marking() {
    let mut net = read("pl p (3)\ntr a p*3 -> q\ntr b r -> p*3\n");
    let p = place(&net, "p");
    let a = transition(&net, "a");
    let b = transition(&net, "b");
    let mut log = vec![];
    WeightSimplification::new().reduce(&mut net, &mut log);
    let new_place = PlaceId::from(net.places.len() - 1);
    assert!(net[p].deleted);
    assert_eq!(net[new_place].initial, 1);
    assert_eq!(net[new_place].consumed_by[a], 1);
    assert_eq!(net[new_place].produced_by[b], 1);
    assert_eq!(
        log,
        vec![Modification::Agglomeration(Agglomeration {
            new_place,
            factor: 3,
            deleted_places: vec![(p, 1)],
            constant: 0,
        })]
    );
    let mut net = read("pl p (3)\ntr a p*2 -> q\n");
    let mut log = vec![];
    WeightSimplification::new().reduce(&mut net, &mut log);
    assert_eq!(log, vec![]);
}

#[test]
fn identity_transition_needs_an_arc() {
    let mut net = read("tr lonely\ntr loop p*2 q -> p*2 q\ntr other p -> p*2\n");
    let mut log = vec![];
    IdentityTransitionReducer::new().reduce(&mut net, &mut log);
    assert_eq!(
        log,
        vec![Modification::TransitionElimination(TransitionElimination {
            deleted_transitions: vec![transition(&net, "loop")],
        })]
    );
    assert!(!net[transition(&net, "lonely")].deleted);
}

#[test]
fn simple_loops_are_merged_into_one_place() {
    // a loop of three places, with one more transition at its side
    let mut net = read(
        "pl a (1)\npl b (2)\ntr t0 a -> b\ntr t1 b -> c\ntr t2 c -> a\ntr side a*2 -> out\n",
    );
    let ids = [place(&net, "a"), place(&net, "b"), place(&net, "c")];
    let side = transition(&net, "side");
    let mut log = vec![];
    SimpleLoopAgglomeration::new().reduce(&mut net, &mut log);
    let new_place = PlaceId::from(net.places.len() - 1);
    assert_eq!(
        log,
        vec![Modification::Agglomeration(Agglomeration {
            new_place,
            factor: 1,
            deleted_places: vec![(ids[0], 1), (ids[1], 1), (ids[2], 1)],
            constant: 0,
        })]
    );
    assert_eq!(net[new_place].initial, 3);
    assert_eq!(net[new_place].consumed_by[side], 2);
    assert_eq!(net[new_place].consumed_by.len(), 4);
    assert_eq!(net[new_place].produced_by.len(), 3);
    for id in ids {
        assert!(net[id].deleted);
    }
    assert!(symmetric(&net));
    // a chain that does not come back is no loop
    let mut net = read("tr t0 a -> b\ntr t1 b -> c\n");
    let mut log = vec![];
    SimpleLoopAgglomeration::new().reduce(&mut net, &mut log);
    assert_eq!(log, vec![]);
}

#[test]
fn pseudo_start_unfolds_the_start_place() {
    let mut net = read("pl start (1)\ntr left start -> l*2\ntr right start -> r\n");
    let start = place(&net, "start");
    let l = place(&net, "l");
    let r = place(&net, "r");
    let left = transition(&net, "left");
    let mut log = vec![];
    PseudoStart::new().reduce(&mut net, &mut log);
    assert_eq!(net.places.len(), 7);
    assert_eq!(
        log,
        vec![
            Modification::Agglomeration(Agglomeration {
                new_place: PlaceId::from(3),
                factor: 1,
                deleted_places: vec![(l, 1), (PlaceId::from(4), -2)],
                constant: 0,
            }),
            Modification::Agglomeration(Agglomeration {
                new_place: PlaceId::from(5),
                factor: 1,
                deleted_places: vec![(r, 1), (PlaceId::from(6), -1)],
                constant: 0,
            }),
            Modification::Reduction(Reduction {
                equals_to: vec![],
                constant: 1,
                deleted_places: vec![(PlaceId::from(4), 1), (PlaceId::from(6), 1), (start, 1)],
            }),
        ]
    );
    assert!(net[start].deleted);
    assert!(net[l].deleted && net[r].deleted);
    assert!(net[left].deleted);
    assert!(symmetric(&net));
}

#[test]
fn rl_fuses_a_fan_of_leaves() {
    // the source fills two production places; each leaf takes one token of a production
    // place and one of the constraint place
    let text = "pl c (3)\npl parent (1)\ntr source parent -> o1 o2\ntr leaf1 o1 c -> \ntr leaf2 o2 c -> \n";
    let mut net = read(text);
    let c = place(&net, "c");
    let parent = place(&net, "parent");
    let o1 = place(&net, "o1");
    let o2 = place(&net, "o2");
    let source = transition(&net, "source");
    let fan = FoundFan {
        constraints: vec![c],
        outputs: vec![o1, o2],
        source,
        sum: 3,
    };
    let mut log = vec![];
    fuse(&mut net, &fan, &mut log);
    let new_place = PlaceId::from(4);
    assert_eq!(
        log,
        vec![
            Modification::InequalityReduction(InequalityReduction {
                deleted_places: vec![(c, 1)],
                kept_places: vec![],
                constant: 3,
            }),
            Modification::Agglomeration(Agglomeration {
                new_place,
                factor: 2,
                deleted_places: vec![(c, -1), (o1, 1), (o2, 1), (parent, 2)],
                constant: 3,
            }),
            Modification::InequalityReduction(InequalityReduction {
                deleted_places: vec![(o1, 1), (parent, 1)],
                kept_places: vec![(new_place, 1)],
                constant: 0,
            }),
            Modification::InequalityReduction(InequalityReduction {
                deleted_places: vec![(o2, 1), (parent, 1)],
                kept_places: vec![(new_place, 1)],
                constant: 0,
            }),
        ]
    );
    assert_eq!(net[new_place].initial, 1);
    assert!(net[new_place].is_disconnected());
    assert!(net[source].deleted);
    for pl in [c, parent, o1, o2] {
        assert!(net[pl].deleted);
    }
    assert!(symmetric(&net));
    // without a parent to merge, the new place is filled by the source
    let text = "pl c (3)\ntr source a b -> o1 o2\ntr leaf1 o1 c -> \ntr leaf2 o2 c -> \n";
    let mut net = read(text);
    let c = place(&net, "c");
    let o1 = place(&net, "o1");
    let o2 = place(&net, "o2");
    let source = transition(&net, "source");
    let fan = FoundFan {
        constraints: vec![c],
        outputs: vec![o1, o2],
        source,
        sum: 3,
    };
    let mut log = vec![];
    fuse(&mut net, &fan, &mut log);
    let new_place = PlaceId::from(5);
    assert_eq!(net[new_place].produced_by[source], 1);
    assert_eq!(net[source].produce.len(), 1);
    assert_eq!(
        log[1],
        Modification::Agglomeration(Agglomeration {
            new_place,
            factor: 2,
            deleted_places: vec![(c, -1), (o1, 1), (o2, 1)],
            constant: 3,
        })
    );
    assert_eq!(
        log[2],
        Modification::InequalityReduction(InequalityReduction {
            deleted_places: vec![(o1, 1)],
            kept_places: vec![(new_place, 1)],
            constant: 0,
        })
    );
    assert_eq!(log.len(), 4);
    assert!(symmetric(&net));
}

#[test]
fn rl_leaves_other_nets_alone() {
    let text = "pl c (3)\npl parent (1)\ntr source parent -> o1 o2\ntr leaf1 o1 c -> \ntr leaf2 o2 c -> \ntr first o1 c -> done\n";
    let mut net = read(text);
    let mut log = vec![];
    assert!(find_fan(&net, 3).is_none());
    assert!(find_fan(&net, 0).is_none());
    assert!(find_fan(&net, 9).is_none());
    RLReducer::new().reduce(&mut net, &mut log);
    assert_eq!(log, vec![]);
    assert_eq!(net.places.len(), 5);
}

#[test]
fn a_chain_applies_its_parts_in_order() {
    let mut net = read("pl p (5)\ntr t p -> \ntr loop q -> q\n");
    let mut log = vec![];
    ChainReducer::new3(
        IdentityTransitionReducer::new(),
        SourceSinkReducer::new(),
        IdentityReducer::new(),
    )
    .reduce(&mut net, &mut log);
    assert_eq!(
        log,
        vec![
            Modification::TransitionElimination(TransitionElimination {
                deleted_transitions: vec![transition(&net, "loop")],
            }),
            Modification::InequalityReduction(InequalityReduction {
                deleted_places: vec![(place(&net, "p"), 1)],
                kept_places: vec![],
                constant: 5,
            }),
        ]
    );
    let mut net = read("pl p (5)\ntr t p -> \n");
    let mut log = vec![];
    ChainReducer::new2(IdentityPlaceReducer::new(), SourceSinkReducer::new()).place_reduce(
        &mut net,
        PlaceId::from(0),
        &mut log,
    );
    assert_eq!(log.len(), 1);
}

#[test]
fn a_loop_runs_until_nothing_is_appended() {
    // a chain of three places is merged in two rounds, the third round appends nothing
    let text = "tr t0 a -> b\ntr t1 b -> c\n";
    let mut net = read(text);
    let mut log = vec![];
    LoopReducer::new(SimpleChainReducer::new(), u64::MAX).reduce(&mut net, &mut log);
    assert_eq!(log.len(), 2);
    let mut again = vec![];
    LoopReducer::new(SimpleChainReducer::new(), u64::MAX).reduce(&mut net, &mut again);
    assert_eq!(again, vec![]);
    // the number of rounds is bounded
    let mut net = read("tr t0 a -> b\ntr t1 x -> y\n");
    let mut log = vec![];
    LoopReducer::new(IdentityReducer::new(), 3).reduce(&mut net, &mut log);
    assert_eq!(log, vec![]);
    let mut net = read(text);
    let mut log = vec![];
    LoopReducer::new(SimpleChainReducer::new(), 0).reduce(&mut net, &mut log);
    assert_eq!(log, vec![]);
}

#[test]
fn a_smart_reducer_follows_up_at_new_places() {
    // the chain makes a new place with tokens whose only consumer produces nothing
    let mut net = read("pl a (2)\ntr t a -> b\ntr sink b -> \n");
    let a = place(&net, "a");
    let b = place(&net, "b");
    let mut log = vec![];
    SmartReducer::new(
        SimpleChainReducer::new(),
        SourceSinkReducer::new(),
        IdentityTransitionReducer::new(),
    )
    .reduce(&mut net, &mut log);
    let new_place = PlaceId::from(2);
    assert_eq!(
        log,
        vec![
            Modification::Agglomeration(Agglomeration {
                new_place,
                factor: 1,
                deleted_places: vec![(a, 1), (b, 1)],
                constant: 0,
            }),
            Modification::InequalityReduction(InequalityReduction {
                deleted_places: vec![(new_place, 1)],
                kept_places: vec![],
                constant: 2,
            }),
        ]
    );
    let mut net = read("tr t0 p0 -> p1\ntr t1 p0 -> p1\n");
    let mut log = vec![];
    SmartReducer::new_parallel_smart_reducer(ParallelTransitionReducer::new())
        .reduce(&mut net, &mut log);
    assert_eq!(log.len(), 1);
}

#[test]
fn compact_net_keeps_the_connected_nodes() {
    let mut net = read("pl lonely (4)\npl a (2)\ntr idle\ntr t a*3 -> b\n");
    net.delete_place(place(&net, "lonely"));
    let (small, transitions, places) = net.new_without_disconnected();
    assert_eq!(places, vec![place(&net, "a"), place(&net, "b")]);
    assert_eq!(transitions, vec![transition(&net, "t")]);
    assert_eq!(small.places.len(), 2);
    assert_eq!(small.transitions.len(), 1);
    let t = TransitionId::from(0);
    assert_eq!(small[PlaceId::from(0)].initial, 2);
    assert_eq!(small[t].consume[PlaceId::from(0)], 3);
    assert_eq!(small[t].produce[PlaceId::from(1)], 1);
    assert!(symmetric(&small));
}

#[test]
fn invariants_remove_the_place_they_determine() {
    let mut net = read("pl lonely (1)\npl a (2)\ntr t a -> b\ntr u b -> a\n");
    let a = place(&net, "a");
    let b = place(&net, "b");
    let prepared = InvariantReducer::prepare(&net).unwrap();
    assert_eq!(prepared.place_map, vec![a, b]);
    assert_eq!(
        prepared.text,
        "pl {-0} (2)\npl {-1} \ntr {-2} {-0} -> {-1} \ntr {-3} {-1} -> {-0} \n"
    );
    let invariants = vec![
        Invariant {
            constant: 2,
            eqn: vec![
                Member { item: "-0".to_string(), weight: -1 },
                Member { item: "-1".to_string(), weight: 3 },
            ],
        },
        Invariant {
            constant: 7,
            eqn: vec![Member { item: "unknown".to_string(), weight: -1 }],
        },
        Invariant {
            constant: 7,
            eqn: vec![
                Member { item: "-0".to_string(), weight: -1 },
                Member { item: "-1".to_string(), weight: -1 },
            ],
        },
    ];
    let mut log = vec![];
    InvariantReducer::apply(&mut net, &prepared.compact, &prepared.place_map, &invariants, &mut log);
    assert_eq!(
        log,
        vec![Modification::Reduction(Reduction {
            equals_to: vec![(b, 3)],
            constant: 2,
            deleted_places: vec![(a, 1)],
        })]
    );
    assert!(net[a].deleted);
    assert!(!net[b].deleted);
}

fn tokens(net: &Net) -> Vec<usize> {
    net.places.iter().map(|p| p.initial).collect()
}

fn fire(net: &Net, marking: &[usize], tr: TransitionId) -> Option<Vec<usize>> {
    let mut after = marking.to_vec();
    for &(pl, w) in net[tr].consume.iter() {
        after[pl.0] = after[pl.0].checked_sub(w)?;
    }
    for &(pl, w) in net[tr].produce.iter() {
        after[pl.0] += w;
    }
    Some(after)
}

#[test]
fn the_records_of_the_simplest_rules_hold_in_the_markings_that_are_reached() {
    let text = "tr t p r -> p q\ntr u s -> \npl p (5)\npl r (2)\npl s (3)\n";
    let net = read(text);
    let (p, r, q, s) = (
        place(&net, "p"),
        place(&net, "r"),
        place(&net, "q"),
        place(&net, "s"),
    );
    let (t, u) = (transition(&net, "t"), transition(&net, "u"));
    let start = tokens(&net);
    let mut reached = vec![start.clone()];
    for firing in [vec![t], vec![u], vec![t, u], vec![t, t], vec![u, t, u, u]] {
        let mut marking = start.clone();
        for tr in firing {
            marking = fire(&net, &marking, tr).unwrap();
            reached.push(marking.clone());
        }
    }
    assert!(fire(&net, &[5, 0, 2, 3], t).is_none());
    assert_eq!((p.0, r.0, q.0, s.0), (0, 1, 2, 3));
    assert!(reached.contains(&vec![5, 0, 2, 3]));
    assert!(reached.contains(&vec![5, 1, 1, 0]));

    let mut reduced = read(text);
    let mut log = vec![];
    IdentityPlaceReducer::new().reduce(&mut reduced, &mut log);
    assert_eq!(
        log,
        vec![Modification::Reduction(Reduction {
            deleted_places: vec![(p, 1)],
            equals_to: vec![],
            constant: 5,
        })]
    );
    for marking in &reached {
        assert_eq!(marking[p.0], 5);
    }

    let mut reduced = read(text);
    let mut log = vec![];
    SourceSinkReducer::new().reduce(&mut reduced, &mut log);
    assert_eq!(
        log,
        vec![Modification::InequalityReduction(InequalityReduction {
            deleted_places: vec![(s, 1)],
            kept_places: vec![],
            constant: 3,
        })]
    );
    for marking in &reached {
        assert!(marking[s.0] <= 3);
        assert_eq!(marking[r.0] + marking[q.0], 2);
    }
}

fn live_places(net: &Net) -> usize {
    net.places.iter().filter(|p| !p.deleted).count()
}

fn reduced_by<R: Reduce>(reducer: R, text: &str) -> (Net, Vec<Modification>) {
    let mut net = read(text);
    let mut log = vec![];
    reducer.reduce(&mut net, &mut log);
    assert!(symmetric(&net));
    (net, log)
}

#[test]
fn the_named_compositions_reduce_a_net_until_nothing_is_left_to_do() {
    // a chain a -> t -> b -> u -> c, and a place d parallel to a
    let text = "tr t a d -> b\ntr u b -> c\npl a (2)\npl d (2)\n";
    let (net, log) = reduced_by(new_redundant(u64::MAX), text);
    assert_eq!(
        log,
        vec![Modification::Reduction(Reduction {
            deleted_places: vec![(place(&net, "d"), 1)],
            equals_to: vec![(place(&net, "a"), 1)],
            constant: 0,
        })]
    );
    assert_eq!(live_places(&net), 3);

    let (net, log) = reduced_by(new_compact(u64::MAX), text);
    assert_eq!(
        log,
        vec![Modification::Agglomeration(Agglomeration {
            new_place: PlaceId(4),
            factor: 1,
            deleted_places: vec![(place(&net, "b"), 1), (place(&net, "c"), 1)],
            constant: 0,
        })]
    );
    assert_eq!(net.places.len(), 5);
    assert_eq!(live_places(&net), 3);

    let (_, none) = reduced_by(new_compact(0), text);
    assert!(none.is_empty());
    let (_, once) = reduced_by(new_redundant_compact(1), text);
    let (_, all) = reduced_by(new_redundant_compact(u64::MAX), text);
    assert!(!once.is_empty());
    assert!(once.len() <= all.len());
    assert_eq!(all[..once.len()], once[..]);

    assert!(reduced_by(new_extra(u64::MAX), text).1.is_empty());
    assert!(!reduced_by(new_compact_extra(u64::MAX), text).1.is_empty());
    assert!(!reduced_by(new_redundant_extra(u64::MAX), text).1.is_empty());
    let (net, log) = reduced_by(new_redundant_compact_extra(u64::MAX), text);
    let (same, same_log) = reduced_by(new_redundant_compact_extra(u64::MAX), text);
    assert_eq!(log, same_log);
    assert_eq!(live_places(&net), live_places(&same));
    assert!(log.len() >= 2);
}

fn run(net: &Net, firing: &[TransitionId]) -> Option<Vec<usize>> {
    let mut marking = tokens(net);
    for &tr in firing {
        marking = fire(net, &marking, tr)?;
    }
    Some(marking)
}

#[test]
fn what_fires_in_a_net_fires_in_the_net_with_an_agglomerated_chain() {
    let text = "tr t a -> b\ntr u b -> c*2\ntr v c -> a\npl a (3)\n";
    let net = read(text);
    let (a, b, c) = (place(&net, "a"), place(&net, "b"), place(&net, "c"));
    let (t, u, v) = (
        transition(&net, "t"),
        transition(&net, "u"),
        transition(&net, "v"),
    );
    let mut reduced = read(text);
    let mut log = vec![];
    SimpleChainReducer::new().transition_reduce(&mut reduced, t, &mut log);
    let new_pl = PlaceId(3);
    assert_eq!(
        log,
        vec![Modification::Agglomeration(Agglomeration {
            new_place: new_pl,
            factor: 1,
            deleted_places: vec![(a, 1), (b, 1)],
            constant: 0,
        })]
    );
    for firing in [
        vec![],
        vec![t],
        vec![t, u],
        vec![t, u, v, v],
        vec![t, t, u, t, u, v, t],
    ] {
        let m = run(&net, &firing).unwrap();
        let without: Vec<TransitionId> = firing.iter().copied().filter(|&x| x != t).collect();
        let n = run(&reduced, &without).unwrap();
        assert_eq!(n[new_pl.0], m[a.0] + m[b.0]);
        assert_eq!(n[c.0], m[c.0]);
    }
    assert_eq!(run(&net, &[t, u, v, v]), Some(vec![4, 0, 0]));
    assert_eq!(run(&net, &[u]), None);
}

#[test]
fn what_fires_in_a_net_fires_in_the_net_with_simplified_weights() {
    let text = "tr t p*3 -> q\ntr u q -> p*3\npl p (3)\n";
    let net = read(text);
    let (p, q) = (place(&net, "p"), place(&net, "q"));
    let (t, u) = (transition(&net, "t"), transition(&net, "u"));
    let mut reduced = read(text);
    let mut log = vec![];
    WeightSimplification::new().reduce(&mut reduced, &mut log);
    let new_pl = PlaceId(2);
    assert_eq!(
        log,
        vec![Modification::Agglomeration(Agglomeration {
            new_place: new_pl,
            factor: 3,
            deleted_places: vec![(p, 1)],
            constant: 0,
        })]
    );
    for firing in [vec![], vec![t], vec![t, u], vec![t, u, t]] {
        let m = run(&net, &firing).unwrap();
        let n = run(&reduced, &firing).unwrap();
        assert_eq!(m[p.0], 3 * n[new_pl.0]);
        assert_eq!(n[q.0], m[q.0]);
    }
    assert_eq!(run(&net, &[t, t]), None);
    assert_eq!(run(&reduced, &[t, t]), None);
}

#[test]
fn what_fires_in_a_net_fires_in_the_net_with_a_merged_loop() {
    let text = "tr t a -> b\ntr u b -> a\ntr v a -> c\npl a (2)\npl b (1)\n";
    let net = read(text);
    let (a, b, c) = (place(&net, "a"), place(&net, "b"), place(&net, "c"));
    let (t, u, v) = (
        transition(&net, "t"),
        transition(&net, "u"),
        transition(&net, "v"),
    );
    let mut reduced = read(text);
    let mut log = vec![];
    SimpleLoopAgglomeration::new().reduce(&mut reduced, &mut log);
    assert_eq!(log.len(), 1);
    let new_pl = PlaceId(3);
    assert_eq!(reduced[new_pl].initial, 3);
    for firing in [vec![], vec![t, t, u], vec![v, t, u, v], vec![u, v, v, v]] {
        let m = run(&net, &firing).unwrap();
        let n = run(&reduced, &firing).unwrap();
        assert_eq!(n[new_pl.0], m[a.0] + m[b.0]);
        assert_eq!(n[c.0], m[c.0]);
    }
}
