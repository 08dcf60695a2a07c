use pnets::arc::Kind;
use pnets::standard::Net;
use pnets::{NetError, NodeId, PlaceId, TransitionId};

#[test]
fn net_tests_create_place() {
    let mut net = Net::default();
    let i = net.create_place();
    assert_eq!(net.places.len(), 1);
    assert_eq!(
        net.get_name_by_index(&NodeId::Place(i)).unwrap(),
        "-0".to_string()
    );
    assert_eq!(net[i].label, None);
}

#[test]
fn basic_net_refuses_other_arcs() {
    let mut net = Net::default();
    let tr = net.create_transition();
    let pl = net.create_place();
    assert_eq!(
        net.add_arc(Kind::Test(pl, tr, 1)),
        Err(NetError::UnsupportedArc(Kind::Test(pl, tr, 1)))
    );
    assert_eq!(
        net.add_arc(Kind::Inhibitor(pl, tr, 1)),
        Err(NetError::UnsupportedArc(Kind::Inhibitor(pl, tr, 1)))
    );
    assert!(net[tr].is_disconnected());
}

#[test]
fn arcs_are_recorded_at_both_ends() {
    let mut net = Net::default();
    let p0 = net.create_place();
    let p1 = net.create_place();
    let t0 = net.create_transition();
    let t1 = net.create_transition();
    net.add_arc(Kind::Consume(p0, t0, 2)).unwrap();
    net.add_arc(Kind::Consume(p0, t0, 3)).unwrap();
    net.add_arc(Kind::Produce(p1, t0, 4)).unwrap();
    net.add_arc(Kind::Consume(p1, t1, 1)).unwrap();
    for p in [p0, p1] {
        for t in [t0, t1] {
            assert_eq!(net[t].consume[p], net[p].consumed_by[t]);
            assert_eq!(net[t].produce[p], net[p].produced_by[t]);
        }
    }
    assert_eq!(net[t0].consume[p0], 5);
    assert_eq!(net[p1].produced_by[t0], 4);
    net.delete_place(p1);
    for p in [p0, p1] {
        for t in [t0, t1] {
            assert_eq!(net[t].consume[p], net[p].consumed_by[t]);
            assert_eq!(net[t].produce[p], net[p].produced_by[t]);
        }
    }
    assert!(net[p1].deleted);
    assert!(net[p1].is_disconnected());
    assert!(net[t1].is_disconnected());
    assert_eq!(net[t0].produce.len(), 0);
    net.delete_place(p1);
    assert!(net[p1].deleted);
    net.delete_transition(t0);
    assert!(net[t0].deleted);
    assert!(net[p0].is_disconnected());
}

#[test]
fn names_and_nodes_correspond_one_to_one() {
    let mut net = Net::default();
    let p0 = net.create_place();
    let t0 = net.create_transition();
    let p1 = net.create_place();
    net.rename_node(p0.into(), "start").unwrap();
    net.rename_node(t0.into(), "go").unwrap();
    net.delete_place(p1);
    for name in ["start", "go"] {
        let id = net.get_index_by_name(name).unwrap();
        assert_eq!(net.get_name_by_index(&id), Some(name.to_string()));
    }
    for id in [NodeId::Place(p0), NodeId::Transition(t0), NodeId::Place(p1)] {
        let name = net.get_name_by_index(&id).unwrap();
        assert_eq!(net.get_index_by_name(&name), Some(id));
    }
    assert_eq!(net.get_index_by_name("nothing"), None);
    assert_eq!(net.get_name_by_index(&NodeId::Place(PlaceId::from(9))), None);
}

#[test]
fn rename_to_the_own_name_succeeds_and_to_a_taken_name_fails() {
    let mut net = Net::default();
    let p0 = net.create_place();
    let p1 = net.create_place();
    net.rename_node(p0.into(), "x").unwrap();
    assert_eq!(net.rename_node(p0.into(), "x"), Ok(()));
    assert_eq!(
        net.rename_node(p1.into(), "x"),
        Err(NetError::DuplicatedName("x".to_string()))
    );
    assert_eq!(
        net.rename_node(NodeId::Place(PlaceId::from(7)), "y"),
        Err(NetError::InvalidPlace(PlaceId::from(7)))
    );
    assert_eq!(
        net.rename_node(NodeId::Transition(TransitionId::from(0)), "y"),
        Err(NetError::InvalidTransition(TransitionId::from(0)))
    );
}

#[test]
fn new_names_never_collide_with_given_names() {
    let mut net = Net::default();
    let p0 = net.create_place();
    // the name of the next new node, taken by hand
    net.rename_node(p0.into(), "a-1").unwrap();
    let p1 = net.create_place();
    let p2 = net.create_place();
    let n0 = net.get_name_by_index(&p0.into()).unwrap();
    let n1 = net.get_name_by_index(&p1.into()).unwrap();
    let n2 = net.get_name_by_index(&p2.into()).unwrap();
    assert_eq!(n0, "a-1");
    assert_eq!(n1, "aa-1");
    assert_eq!(n2, "aa-2");
}

#[test]
fn clone_place_copies_arcs_and_tokens() {
    let mut net = Net::default();
    let p0 = net.create_place();
    let t0 = net.create_transition();
    let t1 = net.create_transition();
    net.add_arc(Kind::Consume(p0, t0, 2)).unwrap();
    net.add_arc(Kind::Produce(p0, t1, 3)).unwrap();
    net.set_initial(p0, 7);
    let p1 = net.clone_place(p0);
    assert_eq!(p1, PlaceId::from(1));
    assert_eq!(net[p1].initial, 7);
    assert_eq!(net[p1].consumed_by[t0], 2);
    assert_eq!(net[p1].produced_by[t1], 3);
    assert_eq!(net[t0].consume[p1], 2);
    assert_eq!(net[t1].produce[p1], 3);
    assert_eq!(net[p0].consumed_by[t0], 2);
    assert!(!net[p1].deleted);
    assert_eq!(net[p0].get_arcs(), vec![Kind::Consume(p0, t0, 2), Kind::Produce(p0, t1, 3)]);
    assert_eq!(net[t0].get_arcs(), vec![Kind::Consume(p0, t0, 2), Kind::Consume(p1, t0, 2)]);
}
