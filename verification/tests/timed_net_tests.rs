use pnets::arc::Kind;
use pnets::timed::{Bound, Net, TimeRange};
use pnets::{NetError, NodeId, PlaceId, TransitionId};

#[test]
fn rename_node() {
    let mut net = Net::default();
    let tr = net.create_transition();
    let pl = net.create_place();
    assert_eq!(
        net.get_name_by_index(&NodeId::Transition(tr)),
        Some("0".to_string())
    );
    assert_eq!(
        net.get_name_by_index(&NodeId::Place(pl)),
        Some("1".to_string())
    );
    assert_eq!(net.rename_node(NodeId::Place(pl), "pl"), Ok(()));
    assert_eq!(net.rename_node(NodeId::Transition(tr), "tr"), Ok(()));
    assert_eq!(
        net.get_name_by_index(&NodeId::Transition(tr)),
        Some("tr".to_string())
    );
    assert_eq!(
        net.get_name_by_index(&NodeId::Place(pl)),
        Some("pl".to_string())
    );
    assert_eq!(
        net.rename_node(NodeId::Place(pl), "tr"),
        Err(NetError::DuplicatedName("tr".to_string()))
    );
    assert_eq!(
        net.rename_node(NodeId::Transition(tr), "pl"),
        Err(NetError::DuplicatedName("pl".to_string()))
    );
}

#[test]
fn transition() {
    let mut net = Net::default();
    let tr = net.create_transition();
    let pl = net.create_place();
    net.add_arc(Kind::Consume(pl, tr, 1)).unwrap();
    net.add_arc(Kind::Produce(pl, tr, 1)).unwrap();
    net.add_arc(Kind::Inhibitor(pl, tr, 1)).unwrap();
    net.add_arc(Kind::Test(pl, tr, 1)).unwrap();
    assert_eq!(net[tr].id(), tr);
    assert_eq!(net[tr].is_disconnected(), false);
    net.delete_transition(tr);
    assert_eq!(net[tr].is_disconnected(), true);
    assert_eq!(net[tr].id(), tr);
}

#[test]
fn places() {
    let mut net = Net::default();
    let tr = net.create_transition();
    let pl = net.create_place();
    net.add_arc(Kind::Consume(pl, tr, 1)).unwrap();
    net.add_arc(Kind::Produce(pl, tr, 1)).unwrap();
    net.add_arc(Kind::Inhibitor(pl, tr, 1)).unwrap();
    net.add_arc(Kind::Test(pl, tr, 1)).unwrap();
    assert_eq!(net[pl].id(), pl);
    assert_eq!(net[pl].is_disconnected(), false);
    net.delete_place(pl);
    assert_eq!(net[pl].is_disconnected(), true);
    assert_eq!(net[pl].id(), pl);
}

#[test]
fn create_transition_with_used_name() {
    let mut net = Net::default();
    let tr_1 = net.create_transition();
    net.rename_node(NodeId::Transition(tr_1), "tr_1").unwrap();
    let tr_2 = net.create_transition();
    assert_eq!(net.transitions.len(), 2);
    assert_eq!(
        net.get_name_by_index(&NodeId::Transition(tr_1)).unwrap(),
        "tr_1".to_string()
    );
    assert_eq!(
        net.get_name_by_index(&NodeId::Transition(tr_2)).unwrap(),
        "a1".to_string()
    );
    assert_eq!(net[tr_1].label, None);
    assert_eq!(net[tr_2].label, None);
}

#[test]
fn create_place_with_used_name() {
    let mut net = Net::default();
    let pl_1 = net.create_place();
    net.rename_node(NodeId::Place(pl_1), "pl_1").unwrap();
    let pl_2 = net.create_place();
    assert_eq!(net.places.len(), 2);
    assert_eq!(
        net.get_name_by_index(&NodeId::Place(pl_1)).unwrap(),
        "pl_1".to_string()
    );
    assert_eq!(
        net.get_name_by_index(&NodeId::Place(pl_2)).unwrap(),
        "a1".to_string()
    );
    assert_eq!(net[pl_1].label, None);
    assert_eq!(net[pl_2].label, None);
}

#[test]
fn create_transition() {
    let mut net = Net::default();
    let i = net.create_transition();
    assert_eq!(net.transitions.len(), 1);
    assert_eq!(
        net.get_name_by_index(&NodeId::Transition(i)).unwrap(),
        "0".to_string()
    )
}

#[test]
fn timed_net_tests_create_place() {
    let mut net = Net::default();
    let i = net.create_place();
    assert_eq!(net.places.len(), 1);
    assert_eq!(
        net.get_name_by_index(&NodeId::Place(i)).unwrap(),
        "0".to_string()
    );
    assert_eq!(net[i].label, None);
}

#[test]
fn node_transition_cast_test() {
    let tr = TransitionId::from(0);
    assert_eq!(
        NodeId::Transition(tr).as_transition(),
        Some(TransitionId::from(0))
    );
    assert_eq!(NodeId::Transition(tr).as_place(), None);
}

#[test]
fn node_place_cast_test() {
    let pl = PlaceId::from(0);
    assert_eq!(NodeId::Place(pl).as_transition(), None);
    assert_eq!(NodeId::Place(pl).as_place(), Some(PlaceId::from(0)));
}

#[test]
fn timed_arcs_merge_by_their_kind() {
    let mut net = Net::default();
    let tr = net.create_transition();
    let pl = net.create_place();
    net.add_arc(Kind::Consume(pl, tr, 2)).unwrap();
    net.add_arc(Kind::Consume(pl, tr, 3)).unwrap();
    net.add_arc(Kind::Test(pl, tr, 2)).unwrap();
    net.add_arc(Kind::Test(pl, tr, 7)).unwrap();
    net.add_arc(Kind::Test(pl, tr, 4)).unwrap();
    net.add_arc(Kind::Inhibitor(pl, tr, 6)).unwrap();
    net.add_arc(Kind::Inhibitor(pl, tr, 2)).unwrap();
    net.add_arc(Kind::Inhibitor(pl, tr, 9)).unwrap();
    assert_eq!(net[tr].consume[pl], 5);
    assert_eq!(net[pl].consumed_by[tr], 5);
    assert_eq!(net[tr].conditions[pl], 7);
    assert_eq!(net[pl].condition_for[tr], 7);
    assert_eq!(net[tr].inhibitors[pl], 2);
    assert_eq!(net[pl].inhibitor_for[tr], 2);
}

#[test]
fn timed_net_refuses_stopwatch_arcs() {
    let mut net = Net::default();
    let tr = net.create_transition();
    let pl = net.create_place();
    assert_eq!(
        net.add_arc(Kind::StopWatch(pl, tr, 1)),
        Err(NetError::UnsupportedArc(Kind::StopWatch(pl, tr, 1)))
    );
    assert_eq!(
        net.add_arc(Kind::StopWatchInhibitor(pl, tr, 1)),
        Err(NetError::UnsupportedArc(Kind::StopWatchInhibitor(pl, tr, 1)))
    );
    assert!(net[tr].is_disconnected());
    assert!(net[pl].is_disconnected());
}

#[test]
fn timed_search_by_name_tells_places_from_transitions() {
    let mut net = Net::default();
    let tr = net.create_transition();
    let pl = net.create_place();
    net.rename_node(NodeId::Transition(tr), "fire").unwrap();
    net.rename_node(NodeId::Place(pl), "store").unwrap();
    assert_eq!(net.search_place_by_name("store"), Some(pl));
    assert_eq!(net.search_place_by_name("fire"), None);
    assert_eq!(net.search_transition_by_name("fire"), Some(tr));
    assert_eq!(net.search_transition_by_name("store"), None);
    assert_eq!(net.search_transition_by_name("nothing"), None);
}

#[test]
fn add_priority_keeps_the_list_sorted_and_free_of_doubles() {
    let mut net = Net::default();
    let t0 = net.create_transition();
    let t1 = net.create_transition();
    let t2 = net.create_transition();
    net.add_priority(t0, t2);
    net.add_priority(t0, t1);
    net.add_priority(t0, t2);
    assert_eq!(net[t0].priorities, vec![t1, t2]);
}

#[test]
fn timed_net_tests_update_priorities_test() {
    let mut net = Net::default();
    let t0 = net.create_transition();
    let t1 = net.create_transition();
    let t2 = net.create_transition();
    let t3 = net.create_transition();

    net.add_priority(t0, t1);
    net.add_priority(t0, t2);
    net.add_priority(t1, t2);
    net.add_priority(t2, t3);

    assert!(net.update_priorities().is_ok());
    assert_eq!(net[t0].priorities, vec![t1, t2, t3]);
    assert_eq!(net[t1].priorities, vec![t2, t3]);
    assert_eq!(net[t2].priorities, vec![t3]);
    assert_eq!(net[t3].priorities, vec![]);
}

#[test]
fn net_tests_update_priorities_test() {
    let mut net = Net::default();
    let t0 = net.create_transition();
    let t1 = net.create_transition();
    let t2 = net.create_transition();
    let t3 = net.create_transition();

    net.add_priority(t0, t1);
    net.add_priority(t0, t2);
    net.add_priority(t1, t2);
    net.add_priority(t2, t3);

    assert!(net.update_priorities().is_ok());
    assert_eq!(net[t0].priorities, vec![t1, t2, t3]);
    assert_eq!(net[t1].priorities, vec![t2, t3]);
    assert_eq!(net[t2].priorities, vec![t3]);
    assert_eq!(net[t3].priorities, vec![]);
}

#[test]
fn cyclic_priorities_are_refused() {
    let mut net = Net::default();
    let t0 = net.create_transition();
    let t1 = net.create_transition();
    let t2 = net.create_transition();
    net.add_priority(t0, t1);
    net.add_priority(t1, t0);
    net.add_priority(t2, t0);
    assert_eq!(net.update_priorities(), Err(NetError::CyclicPriorities));
    let mut net = Net::default();
    let t0 = net.create_transition();
    net.add_priority(t0, t0);
    assert_eq!(net.update_priorities(), Err(NetError::CyclicPriorities));
    let mut net = Net::default();
    assert_eq!(net.update_priorities(), Ok(()));
    net.create_transition();
    assert_eq!(net.update_priorities(), Ok(()));
}

#[test]
fn time_ranges_intersect() {
    let a = TimeRange { start: Bound::Closed(1), end: Bound::Closed(8) };
    let b = TimeRange { start: Bound::Open(1), end: Bound::Infinity };
    assert_eq!(a.intersect(b), TimeRange { start: Bound::Open(1), end: Bound::Closed(8) });
    assert_eq!(b.intersect(a), TimeRange { start: Bound::Open(1), end: Bound::Closed(8) });
    let c = TimeRange { start: Bound::Closed(3), end: Bound::Open(8) };
    assert_eq!(a.intersect(c), TimeRange { start: Bound::Closed(3), end: Bound::Open(8) });
    assert_eq!(
        TimeRange::default(),
        TimeRange { start: Bound::Closed(0), end: Bound::Infinity }
    );
    assert_eq!(TimeRange::default().intersect(a), a);
    let d = TimeRange { start: Bound::Infinity, end: Bound::Closed(9) };
    assert_eq!(d.intersect(c), c);
    assert_eq!(a.intersect(a), a);
}
