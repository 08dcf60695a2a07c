use pnets::timed::{Bound, TimeRange};
use pnets::tina::errors::ParserError;
use pnets::tina::parser::Parser;
use pnets::{arc, NetError, NodeId, PlaceId, TransitionId};

#[test]
fn name_test() {
    let parser = Parser::new("net Name".as_bytes());
    let net = parser.parse().unwrap();
    assert_eq!(net.name, "Name".to_string())
}

#[test]
fn label_test() {
    let parser = Parser::new(
        "tr t0 p0 -> p1\nlb t0 {transition}\nlb p0 {place 0}\nlb p1 {place 1}".as_bytes(),
    );
    let net = parser.parse().unwrap();
    let t0 = net
        .get_index_by_name("t0")
        .unwrap()
        .as_transition()
        .unwrap();
    assert_eq!(net[t0].label, Some("transition".to_string()));
    let p0 = net.get_index_by_name("p0").unwrap().as_place().unwrap();
    assert_eq!(net[p0].label, Some("place 0".to_string()));
    let p1 = net.get_index_by_name("p1").unwrap().as_place().unwrap();
    assert_eq!(net[p1].label, Some("place 1".to_string()));
}

#[test]
fn transition_test() {
    let parser =
        Parser::new("tr t0 : transition_label [1,5] p0*3 p2?4 p3?-2 -> p1".as_bytes());

    let net = parser.parse().unwrap();

    // Check if all places and transitions are created
    let t0: TransitionId = net
        .get_index_by_name(&"t0".to_string())
        .unwrap()
        .as_transition()
        .unwrap();
    let p0 = net
        .get_index_by_name(&"p0".to_string())
        .unwrap()
        .as_place()
        .unwrap();
    let p1: PlaceId = net
        .get_index_by_name(&"p1".to_string())
        .unwrap()
        .as_place()
        .unwrap();
    let p2: PlaceId = net
        .get_index_by_name(&"p2".to_string())
        .unwrap()
        .as_place()
        .unwrap();
    let p3: PlaceId = net
        .get_index_by_name(&"p3".to_string())
        .unwrap()
        .as_place()
        .unwrap();

    assert_eq!(
        net.get_name_by_index(&NodeId::Transition(t0)).unwrap(),
        "t0".to_string()
    );
    assert_eq!(
        net.get_name_by_index(&NodeId::Place(p0)).unwrap(),
        "p0".to_string()
    );
    assert_eq!(
        net.get_name_by_index(&NodeId::Place(p1)).unwrap(),
        "p1".to_string()
    );
    assert_eq!(
        net.get_name_by_index(&NodeId::Place(p2)).unwrap(),
        "p2".to_string()
    );
    assert_eq!(
        net.get_name_by_index(&NodeId::Place(p3)).unwrap(),
        "p3".to_string()
    );

    // Check transition information
    assert_eq!(
        net[t0].time,
        TimeRange {
            start: Bound::Closed(1),
            end: Bound::Closed(5),
        }
    );
    assert_eq!(net[t0].label, Some("transition_label".to_string()));
    assert_eq!(net[t0].consume[p0], 3);
    assert_eq!(net[t0].consume[p1], 0);
    assert_eq!(net[t0].consume[p2], 0);
    assert_eq!(net[t0].consume[p3], 0);

    assert_eq!(net[p0].consumed_by[t0], 3);
    assert_eq!(net[p1].consumed_by[t0], 0);
    assert_eq!(net[p2].consumed_by[t0], 0);
    assert_eq!(net[p3].consumed_by[t0], 0);

    assert_eq!(net[t0].produce[p0], 0);
    assert_eq!(net[t0].produce[p1], 1);
    assert_eq!(net[t0].produce[p2], 0);
    assert_eq!(net[t0].produce[p3], 0);

    assert_eq!(net[p0].produced_by[t0], 0);
    assert_eq!(net[p1].produced_by[t0], 1);
    assert_eq!(net[p2].produced_by[t0], 0);
    assert_eq!(net[p3].produced_by[t0], 0);

    assert_eq!(net[t0].conditions[p0], 0);
    assert_eq!(net[t0].conditions[p1], 0);
    assert_eq!(net[t0].conditions[p2], 4);
    assert_eq!(net[t0].conditions[p3], 0);

    assert_eq!(net[p0].condition_for[t0], 0);
    assert_eq!(net[p1].condition_for[t0], 0);
    assert_eq!(net[p2].condition_for[t0], 4);
    assert_eq!(net[p3].condition_for[t0], 0);

    assert_eq!(net[t0].inhibitors[p0], 0);
    assert_eq!(net[t0].inhibitors[p1], 0);
    assert_eq!(net[t0].inhibitors[p2], 0);
    assert_eq!(net[t0].inhibitors[p3], 2);

    assert_eq!(net[p0].inhibitor_for[t0], 0);
    assert_eq!(net[p1].inhibitor_for[t0], 0);
    assert_eq!(net[p2].inhibitor_for[t0], 0);
    assert_eq!(net[p3].inhibitor_for[t0], 2);
}

#[test]
#[should_panic]
fn name_test_invalid_identifier() {
    let parser = Parser::new("net *".as_bytes());
    parser.parse().unwrap();
}

#[test]
fn place_test() {
    let parser = Parser::new("pl p0 : label (43K) t0 -> t1 t2?1M t3?-2K".as_bytes());
    let net = parser.parse().unwrap();

    let p0 = net
        .get_index_by_name(&"p0".to_string())
        .unwrap()
        .as_place()
        .unwrap();
    let t0 = net
        .get_index_by_name(&"t0".to_string())
        .unwrap()
        .as_transition()
        .unwrap();
    let t1 = net
        .get_index_by_name(&"t1".to_string())
        .unwrap()
        .as_transition()
        .unwrap();
    let t2 = net
        .get_index_by_name(&"t2".to_string())
        .unwrap()
        .as_transition()
        .unwrap();
    let t3 = net
        .get_index_by_name(&"t3".to_string())
        .unwrap()
        .as_transition()
        .unwrap();

    assert_eq!(net.get_name_by_index(&t0.into()).unwrap(), "t0".to_string());
    assert_eq!(net.get_name_by_index(&t1.into()).unwrap(), "t1".to_string());
    assert_eq!(net.get_name_by_index(&t2.into()).unwrap(), "t2".to_string());
    assert_eq!(net.get_name_by_index(&t3.into()).unwrap(), "t3".to_string());
    assert_eq!(net.get_name_by_index(&p0.into()).unwrap(), "p0".to_string());

    assert_eq!(net[p0].label, Some("label".to_string()));
    assert_eq!(net[p0].initial, 43000);

    assert_eq!(net[t0].produce[p0], 1);
    assert_eq!(net[t1].produce[p0], 0);
    assert_eq!(net[t2].produce[p0], 0);
    assert_eq!(net[t3].produce[p0], 0);

    assert_eq!(net[p0].produced_by[t0], 1);
    assert_eq!(net[p0].produced_by[t1], 0);
    assert_eq!(net[p0].produced_by[t2], 0);
    assert_eq!(net[p0].produced_by[t3], 0);

    assert_eq!(net[t0].consume[p0], 0);
    assert_eq!(net[t1].consume[p0], 1);
    assert_eq!(net[t2].consume[p0], 0);
    assert_eq!(net[t3].consume[p0], 0);

    assert_eq!(net[p0].consumed_by[t0], 0);
    assert_eq!(net[p0].consumed_by[t1], 1);
    assert_eq!(net[p0].consumed_by[t2], 0);
    assert_eq!(net[p0].consumed_by[t3], 0);

    assert_eq!(net[t0].conditions[p0], 0);
    assert_eq!(net[t1].conditions[p0], 0);
    assert_eq!(net[t2].conditions[p0], 1_000_000);
    assert_eq!(net[t3].conditions[p0], 0);

    assert_eq!(net[p0].condition_for[t0], 0);
    assert_eq!(net[p0].condition_for[t1], 0);
    assert_eq!(net[p0].condition_for[t2], 1_000_000);
    assert_eq!(net[p0].condition_for[t3], 0);

    assert_eq!(net[t0].inhibitors[p0], 0);
    assert_eq!(net[t1].inhibitors[p0], 0);
    assert_eq!(net[t2].inhibitors[p0], 0);
    assert_eq!(net[t3].inhibitors[p0], 2000);

    assert_eq!(net[p0].inhibitor_for[t0], 0);
    assert_eq!(net[p0].inhibitor_for[t1], 0);
    assert_eq!(net[p0].inhibitor_for[t2], 0);
    assert_eq!(net[p0].inhibitor_for[t3], 2_000);
}

#[test]
fn note_test() {
    let parser = Parser::new("nt note 0 {This is a note}".as_bytes());
    parser.parse().unwrap();
}

#[test]
fn priority_test() {
    let parser = Parser::new("".as_bytes());
    parser.parse().unwrap();
}


#[test]
fn lines_may_come_in_any_order_and_name_nodes_again() {
    let net = Parser::new(
        "# a comment\nnet {my net}\ntr t0 p0 -> p1\npl p0 (2)\npl p0 (3)\ntr t0 p0*2 -> p1\n"
            .as_bytes(),
    )
    .parse()
    .unwrap();
    assert_eq!(net.name, "my net");
    assert_eq!(net.places.len(), 2);
    assert_eq!(net.transitions.len(), 1);
    let p0 = net.get_index_by_name("p0").unwrap().as_place().unwrap();
    let p1 = net.get_index_by_name("p1").unwrap().as_place().unwrap();
    let t0 = net.get_index_by_name("t0").unwrap().as_transition().unwrap();
    assert_eq!(net[p0].initial, 5);
    assert_eq!(net[t0].consume[p0], 3);
    assert_eq!(net[t0].produce[p1], 2);
    assert_eq!(net[p1].produced_by[t0], 2);
    assert_eq!(net[t0].time, TimeRange::default());
}

#[test]
fn priorities_are_read_in_both_directions() {
    let net = Parser::new("tr a\ntr b\ntr c\npr a b > c\npr a < b\n".as_bytes())
        .parse()
        .unwrap();
    let a = net.search_transition_by_name("a").unwrap();
    let b = net.search_transition_by_name("b").unwrap();
    let c = net.search_transition_by_name("c").unwrap();
    assert_eq!(net[a].priorities, vec![c]);
    assert_eq!(net[b].priorities, vec![a, c]);
    assert_eq!(net[c].priorities, vec![]);
}

#[test]
fn intervals_on_one_transition_are_intersected() {
    let net = Parser::new("tr t [1,9]\ntr t ]1,5[\n".as_bytes())
        .parse()
        .unwrap();
    let t = net.search_transition_by_name("t").unwrap();
    assert_eq!(
        net[t].time,
        TimeRange {
            start: Bound::Open(1),
            end: Bound::Open(5),
        }
    );
}

#[test]
fn a_name_cannot_be_a_place_and_a_transition() {
    let r = Parser::new("tr x x -> \n".as_bytes()).parse();
    assert_eq!(
        r.err(),
        Some(ParserError::Net(NetError::DuplicatedName("x".to_string())))
    );
}

#[test]
fn a_label_needs_a_known_node() {
    let r = Parser::new("lb nobody {a label}\n".as_bytes()).parse();
    assert_eq!(
        r.err(),
        Some(ParserError::Net(NetError::UnknownIdentifier("nobody".to_string())))
    );
}

#[test]
fn stopwatch_arcs_are_read_and_refused_by_the_net() {
    let r = Parser::new("tr t p!3 -> q\n".as_bytes()).parse();
    match r.err() {
        Some(ParserError::Net(NetError::UnsupportedArc(arc::Kind::StopWatch(_, _, 3)))) => {}
        other => panic!("{:?}", other),
    }
    let r = Parser::new("tr t p -> q?3\n".as_bytes()).parse();
    assert!(matches!(r.err(), Some(ParserError::UnexpectedArc(_, _))));
}

#[test]
fn a_token_that_begins_no_line_is_refused() {
    let r = Parser::new("-> p\n".as_bytes()).parse();
    assert!(matches!(r.err(), Some(ParserError::UnexpectedToken(_, _))));
    let r = Parser::new("tr t p\n".as_bytes()).parse();
    assert!(matches!(r.err(), Some(ParserError::UnexpectedToken(_, _))));
    let r = Parser::new("tr t p -a\n".as_bytes()).parse();
    assert!(matches!(r.err(), Some(ParserError::InvalidChar(_, _))));
    let bytes = [b't', b'r', b' ', 0xFF];
    let r = Parser::new(&bytes).parse();
    assert!(matches!(r.err(), Some(ParserError::Utf8Error(_))));
}
