use pnets::arc::Kind;
use pnets::standard;
use pnets::timed::{Bound, Net, TimeRange};
use pnets::tina::export::{Exporter, ExporterBuilder};
use pnets::tina::parser::Parser;
use pnets::{NetError, NodeId, PlaceId, TransitionId};

fn same_structure(a: &Net, b: &Net) -> bool {
    if a.name != b.name
        || a.places.len() != b.places.len()
        || a.transitions.len() != b.transitions.len()
    {
        return false;
    }
    for p in 0..a.places.len() {
        let name = a.get_name_by_index(&NodeId::Place(PlaceId::from(p))).unwrap();
        let (x, y) = (&a.places[p], &b[b.search_place_by_name(&name).unwrap()]);
        if x.label != y.label || x.initial != y.initial {
            return false;
        }
    }
    for t in 0..a.transitions.len() {
        let name = a
            .get_name_by_index(&NodeId::Transition(TransitionId::from(t)))
            .unwrap();
        let (x, y) = (&a.transitions[t], &b[b.search_transition_by_name(&name).unwrap()]);
        if x.label != y.label || x.time != y.time {
            return false;
        }
        let mut high: Vec<String> = vec![];
        for i in &x.priorities {
            high.push(a.get_name_by_index(&NodeId::Transition(*i)).unwrap());
        }
        let mut other: Vec<String> = vec![];
        for i in &y.priorities {
            other.push(b.get_name_by_index(&NodeId::Transition(*i)).unwrap());
        }
        high.sort();
        other.sort();
        if high != other {
            return false;
        }
        for p in 0..a.places.len() {
            let pl = PlaceId::from(p);
            let place_name = a.get_name_by_index(&NodeId::Place(pl)).unwrap();
            let q = b.search_place_by_name(&place_name).unwrap();
            if x.consume[pl] != y.consume[q]
                || x.produce[pl] != y.produce[q]
                || x.conditions[pl] != y.conditions[q]
                || x.inhibitors[pl] != y.inhibitors[q]
                || x.inhibitors.contains(pl) != y.inhibitors.contains(q)
            {
                return false;
            }
        }
    }
    true
}

#[test]
fn scenario_tina_round_trip() {
    let text = "net N\npl p (3) -> t\ntr t : a [1,2] p -> q\n";
    let net = Parser::new(text.as_bytes()).parse().unwrap();
    let printed = ExporterBuilder::new()
        .with_all_places(true)
        .build()
        .export(&net)
        .unwrap();
    let again = Parser::new(printed.as_bytes()).parse().unwrap();
    assert!(same_structure(&net, &again));
    let t = again.search_transition_by_name("t").unwrap();
    assert_eq!(again[t].label, Some("a".to_string()));
    assert_eq!(
        again[t].time,
        TimeRange {
            start: Bound::Closed(1),
            end: Bound::Closed(2),
        }
    );
    let p = again.search_place_by_name("p").unwrap();
    assert_eq!(again[p].initial, 3);
    assert_eq!(again[t].consume[p], 2);
    assert_eq!(again.name, "N");
}

#[test]
fn export_writes_the_text_of_a_net() {
    let text = "net N\npl p (3) -> t\ntr t : a [1,2] p -> q\n";
    let net = Parser::new(text.as_bytes()).parse().unwrap();
    let printed = ExporterBuilder::new().build().export(&net).unwrap();
    assert_eq!(printed, "net N\npl p (3)\ntr t : a [1,2] p*2 -> q \n");
    let printed = ExporterBuilder::new()
        .with_all_places(true)
        .build()
        .export(&net)
        .unwrap();
    assert_eq!(printed, "net N\npl p (3)\npl q \ntr t : a [1,2] p*2 -> q \n");
}

#[test]
fn export_writes_every_kind_of_arc_and_the_priorities() {
    let mut net = Net::default();
    let t = net.create_transition();
    let u = net.create_transition();
    let p = net.create_place();
    let q = net.create_place();
    net.rename_node(t.into(), "t").unwrap();
    net.rename_node(u.into(), "u").unwrap();
    net.rename_node(p.into(), "p").unwrap();
    net.rename_node(q.into(), "two words").unwrap();
    net.add_arc(Kind::Consume(p, t, 2)).unwrap();
    net.add_arc(Kind::Test(p, t, 3)).unwrap();
    net.add_arc(Kind::Inhibitor(q, t, 4)).unwrap();
    net.add_arc(Kind::Produce(q, t, 1)).unwrap();
    net.add_priority(t, u);
    let exporter = ExporterBuilder::new().build();
    let printed = exporter.export(&net).unwrap();
    assert_eq!(
        printed,
        "tr t {two words}?-4 p*2 p?3  -> {two words} \npr t > u \ntr u -> \n"
    );
    let again = Parser::new(printed.as_bytes()).parse().unwrap();
    assert!(same_structure(&net, &again));
    let printed = ExporterBuilder::new()
        .with_disconnected_transitions(true)
        .build()
        .export(&net)
        .unwrap();
    assert_eq!(
        printed,
        "tr t {two words}?-4 p*2 p?3  -> {two words} \npr t > u \n"
    );
}

#[test]
fn names_are_escaped_so_that_they_are_read_back() {
    assert_eq!(Exporter::escape("plain_name'1"), "plain_name'1");
    assert_eq!(Exporter::escape("two words"), "{two words}");
    assert_eq!(Exporter::escape("a{b}c\\"), "{a\\{b\\}c\\\\}");
    assert_eq!(Exporter::escape(""), "{}");
    assert_eq!(Exporter::escape("12"), "{12}");
    assert_eq!(Exporter::escape("tr"), "{tr}");
    assert_eq!(Exporter::escape("Net"), "{Net}");
    assert_eq!(Exporter::escape("transition"), "transition");
    let mut net = Net::default();
    let names = ["0", "tr", "a b", "x\\", "{", "é", "->", "plain"];
    for name in names {
        let t = net.create_transition();
        net.rename_node(t.into(), name).unwrap();
    }
    let printed = ExporterBuilder::new().build().export(&net).unwrap();
    let again = Parser::new(printed.as_bytes()).parse().unwrap();
    assert_eq!(again.transitions.len(), names.len());
    for name in names {
        assert!(again.search_transition_by_name(name).is_some());
    }
}

#[test]
fn export_refuses_a_range_without_start() {
    let mut net = Net::default();
    let t = net.create_transition();
    net.transitions[0].time = TimeRange {
        start: Bound::Infinity,
        end: Bound::Closed(2),
    };
    assert_eq!(net[t].id(), t);
    assert_eq!(
        ExporterBuilder::new().build().export(&net),
        Err(NetError::InvalidTimeRange)
    );
    net.transitions[0].time = TimeRange {
        start: Bound::Open(1),
        end: Bound::Infinity,
    };
    assert_eq!(
        ExporterBuilder::new().build().export(&net).unwrap(),
        "tr 0 ]1,w[ -> \n".replace("tr 0", "tr {0}")
    );
}

#[test]
fn a_timed_net_becomes_a_basic_net_and_back() {
    let timed = Parser::new(
        "net both\npl p : store (2)\ntr t : fire [0,3] p*2 c?4 i?-1 -> q\npr t > u\n".as_bytes(),
    )
    .parse()
    .unwrap();
    let basic = standard::Net::from_timed(&timed).unwrap();
    assert_eq!(basic.name, "both");
    let p = basic.get_index_by_name("p").unwrap().as_place().unwrap();
    let c = basic.get_index_by_name("c").unwrap().as_place().unwrap();
    let i = basic.get_index_by_name("i").unwrap().as_place().unwrap();
    let q = basic.get_index_by_name("q").unwrap().as_place().unwrap();
    let t = basic.get_index_by_name("t").unwrap().as_transition().unwrap();
    assert_eq!(basic[p].label, Some("store".to_string()));
    assert_eq!(basic[p].initial, 2);
    assert_eq!(basic[t].label, Some("fire".to_string()));
    assert_eq!(basic[t].consume[p], 2);
    assert_eq!(basic[t].consume[c], 4);
    assert_eq!(basic[t].produce[c], 4);
    assert_eq!(basic[c].consumed_by[t], 4);
    assert_eq!(basic[c].produced_by[t], 4);
    assert_eq!(basic[t].produce[q], 1);
    assert!(basic[i].is_disconnected());
    let back = Net::from_standard(&basic).unwrap();
    assert_eq!(back.name, "both");
    let t = back.search_transition_by_name("t").unwrap();
    let c = back.search_place_by_name("c").unwrap();
    assert_eq!(back[t].time, TimeRange::default());
    assert_eq!(back[t].consume[c], 4);
    assert_eq!(back[t].conditions.len(), 0);
    assert_eq!(back[t].priorities, vec![]);
    assert_eq!(back[back.search_place_by_name("p").unwrap()].initial, 2);
}

#[test]
fn names_numbers_and_ranges_are_read_back_as_they_were_written() {
    let mut net = Net::default();
    let t = net.create_transition();
    let p = net.create_place();
    let q = net.create_place();
    net.rename_node(t.into(), "tr").unwrap();
    net.rename_node(p.into(), "9 lives {\\}").unwrap();
    net.rename_node(q.into(), "é_1'").unwrap();
    net.add_arc(Kind::Consume(p, t, 1000)).unwrap();
    net.add_arc(Kind::Test(q, t, 18446744073709551615)).unwrap();
    net.add_arc(Kind::Produce(q, t, 1)).unwrap();
    net.transitions[t.0].time = TimeRange {
        start: Bound::Open(7),
        end: Bound::Closed(12),
    };
    let printed = ExporterBuilder::new()
        .with_all_places(true)
        .build()
        .export(&net)
        .unwrap();
    assert_eq!(
        printed,
        "pl {9 lives \\{\\\\\\}} \npl {é_1'} \ntr {tr} ]7,12] {9 lives \\{\\\\\\}}*1000 {é_1'}?18446744073709551615  -> {é_1'} \n"
    );
    let again = Parser::new(printed.as_bytes()).parse().unwrap();
    assert!(same_structure(&net, &again));
    let tr = again.search_transition_by_name("tr").unwrap();
    assert_eq!(again[tr].time.start, Bound::Open(7));
    assert_eq!(again[tr].time.end, Bound::Closed(12));
    let pl = again.search_place_by_name("9 lives {\\}").unwrap();
    assert_eq!(again[tr].consume[pl], 1000);
    let ql = again.search_place_by_name("é_1'").unwrap();
    assert_eq!(again[tr].conditions[ql], 18446744073709551615);
}

#[test]
fn weights_that_do_not_add_up_are_refused() {
    let mut net = Net::default();
    let t = net.create_transition();
    let p = net.create_place();
    net.add_arc(Kind::Consume(p, t, usize::MAX)).unwrap();
    net.add_arc(Kind::Test(p, t, 1)).unwrap();
    assert!(!net.can_add_arc(&Kind::Consume(p, t, 1)));
    assert!(net.can_add_arc(&Kind::Test(p, t, usize::MAX)));
    assert_eq!(
        standard::Net::from_timed(&net).err(),
        Some(NetError::InvalidArc)
    );
    let text = format!("tr t p*{} p -> \n", usize::MAX);
    assert_eq!(
        Parser::new(text.as_bytes()).parse().err(),
        Some(pnets::tina::ParserError::Net(NetError::InvalidArc))
    );
}

#[test]
fn what_was_removed_is_read_back_without_arcs() {
    let mut net = Net::default();
    let t = net.create_transition();
    let p = net.create_place();
    let q = net.create_place();
    net.rename_node(t.into(), "t").unwrap();
    net.rename_node(p.into(), "p").unwrap();
    net.rename_node(q.into(), "q").unwrap();
    net.add_arc(Kind::Consume(p, t, 2)).unwrap();
    net.add_arc(Kind::Produce(q, t, 1)).unwrap();
    net.add_arc(Kind::Inhibitor(q, t, 5)).unwrap();
    net.delete_place(q);
    let printed = ExporterBuilder::new()
        .with_all_places(true)
        .build()
        .export(&net)
        .unwrap();
    assert_eq!(printed, "pl p \npl q \ntr t p*2 -> \n");
    let again = Parser::new(printed.as_bytes()).parse().unwrap();
    assert_eq!(again.places.len(), 2);
    assert_eq!(again.transitions.len(), 1);
    assert_eq!(again.get_index_by_name("p"), Some(NodeId::Place(p)));
    assert_eq!(again.get_index_by_name("q"), Some(NodeId::Place(q)));
    assert_eq!(again.get_index_by_name("t"), Some(NodeId::Transition(t)));
    assert!(net[q].deleted);
    assert!(!again[q].deleted);
    assert!(again[q].is_disconnected());
    assert_eq!(again[t].consume.to_vec(), net[t].consume.to_vec());
    assert_eq!(again[t].produce.to_vec(), net[t].produce.to_vec());
    assert_eq!(again[t].inhibitors.to_vec(), net[t].inhibitors.to_vec());
    assert_eq!(again[p].consumed_by.to_vec(), net[p].consumed_by.to_vec());
}
