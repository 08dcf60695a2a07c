use pnets::arc::Kind;
use pnets::equations::{push_signed, write_modifications};
use pnets::io::{Export, Parse};
use pnets::modifications::{
    Agglomeration, InequalityReduction, Modification, Reduction, TransitionElimination,
};
use pnets::names::Names;
use pnets::standard::Net;
use pnets::text::{chars_of, decimal_string, push_decimal, push_str, string_from_chars};
use pnets::timed::time_range::Bound;
use pnets::tina::reader::Position;
use pnets::tina::token;
use pnets::tina::{ExporterBuilder, Parser, ParserError};
use pnets::{NetError, NodeId, PlaceId, TransitionId};

fn three_places() -> Net {
    let mut net = Net::new();
    let a = net.create_place();
    let b = net.create_place();
    let c = net.create_place();
    net.rename_node(NodeId::Place(a), "a").unwrap();
    net.rename_node(NodeId::Place(b), "b").unwrap();
    net.rename_node(NodeId::Place(c), "c").unwrap();
    net
}

#[test]
fn an_empty_log_gives_the_heading_and_an_empty_line() {
    let net = three_places();
    assert_eq!(
        write_modifications(&vec![], &net),
        Ok("# generated equations\n\n".to_string())
    );
}

#[test]
fn an_agglomeration_is_written_with_its_factor_and_constant() {
    let net = three_places();
    let log = vec![
        Modification::Agglomeration(Agglomeration {
            new_place: PlaceId(2),
            factor: 1,
            deleted_places: vec![(PlaceId(0), 1), (PlaceId(1), 1)],
            constant: 0,
        }),
        Modification::Agglomeration(Agglomeration {
            new_place: PlaceId(2),
            factor: 3,
            deleted_places: vec![(PlaceId(0), 2), (PlaceId(1), -1)],
            constant: 7,
        }),
    ];
    assert_eq!(
        write_modifications(&log, &net),
        Ok("# generated equations\n# A |- c = a + b\n# A |- 3*c = 2*a + -1*b7\n\n".to_string())
    );
}

#[test]
fn a_reduction_is_written_with_both_sides() {
    let net = three_places();
    let log = vec![
        Modification::Reduction(Reduction {
            deleted_places: vec![(PlaceId(0), 1)],
            equals_to: vec![],
            constant: 4,
        }),
        Modification::Reduction(Reduction {
            deleted_places: vec![(PlaceId(0), 1)],
            equals_to: vec![(PlaceId(1), 1), (PlaceId(2), 2)],
            constant: 0,
        }),
        Modification::Reduction(Reduction {
            deleted_places: vec![(PlaceId(0), 2)],
            equals_to: vec![(PlaceId(1), 1)],
            constant: -5,
        }),
    ];
    assert_eq!(
        write_modifications(&log, &net),
        Ok(
            "# generated equations\n# R |- a = 4\n# R |- a = b + 2*c\n# R |- 2*a = b + -5\n\n"
                .to_string()
        )
    );
}

#[test]
fn an_inequality_is_written_with_a_plus_behind_each_kept_place() {
    let net = three_places();
    let log = vec![
        Modification::InequalityReduction(InequalityReduction {
            deleted_places: vec![(PlaceId(0), 1), (PlaceId(1), 2)],
            kept_places: vec![(PlaceId(2), 1)],
            constant: 3,
        }),
        Modification::InequalityReduction(InequalityReduction {
            deleted_places: vec![(PlaceId(0), 1)],
            kept_places: vec![],
            constant: 0,
        }),
    ];
    assert_eq!(
        write_modifications(&log, &net),
        Ok("# generated equations\n# I |- a + 2*b <= c + 3\n# I |- a <= \n\n".to_string())
    );
}

#[test]
fn the_removal_of_transitions_has_no_line() {
    let net = three_places();
    let log = vec![Modification::TransitionElimination(TransitionElimination {
        deleted_transitions: vec![TransitionId(0)],
    })];
    assert_eq!(
        write_modifications(&log, &net),
        Ok("# generated equations\n\n".to_string())
    );
}

#[test]
fn a_record_of_an_unknown_place_is_refused() {
    let net = three_places();
    let log = vec![Modification::Reduction(Reduction {
        deleted_places: vec![(PlaceId(9), 1)],
        equals_to: vec![],
        constant: 0,
    })];
    assert_eq!(
        write_modifications(&log, &net),
        Err(NetError::InvalidPlace(PlaceId(9)))
    );
}

#[test]
fn signed_numerals() {
    let mut out = vec!['x'];
    push_signed(&mut out, 0);
    push_signed(&mut out, -12);
    push_signed(&mut out, 345);
    push_signed(&mut out, isize::MIN);
    let expected = format!("x0-12345{}", isize::MIN);
    assert_eq!(string_from_chars(&out), expected);
}

#[test]
fn decimal_numerals() {
    assert_eq!(decimal_string(0), "0");
    assert_eq!(decimal_string(7), "7");
    assert_eq!(decimal_string(10), "10");
    assert_eq!(decimal_string(4096), "4096");
    assert_eq!(decimal_string(usize::MAX), format!("{}", usize::MAX));
    let mut out = chars_of("n=");
    push_decimal(&mut out, 250);
    push_str(&mut out, "; é");
    assert_eq!(out, vec!['n', '=', '2', '5', '0', ';', ' ', 'é']);
    assert_eq!(string_from_chars(&out), "n=250; é");
}

#[test]
fn a_table_of_names_gives_new_names_that_no_node_bears() {
    let mut dashed = Names::new(true);
    dashed.register(NodeId::Place(PlaceId(0)));
    dashed.register(NodeId::Transition(TransitionId(0)));
    assert_eq!(dashed.len(), 2);
    assert_eq!(
        dashed.get_name_by_index(&NodeId::Place(PlaceId(0))),
        Some("-0".to_string())
    );
    assert_eq!(
        dashed.get_name_by_index(&NodeId::Transition(TransitionId(0))),
        Some("-1".to_string())
    );
    assert_eq!(
        dashed.get_index_by_name("-1"),
        Some(NodeId::Transition(TransitionId(0)))
    );
    assert_eq!(dashed.get_index_by_name("-2"), None);

    let mut plain = Names::new(false);
    plain.register(NodeId::Place(PlaceId(0)));
    assert_eq!(
        plain.get_name_by_index(&NodeId::Place(PlaceId(0))),
        Some("0".to_string())
    );
}

#[test]
fn a_given_name_moves_the_prefix_of_new_names_away() {
    let mut names = Names::new(true);
    names.register(NodeId::Place(PlaceId(0)));
    names.avoid("a-7");
    names.set(NodeId::Place(PlaceId(0)), "a-7");
    assert_eq!(names.len(), 1);
    assert_eq!(names.get_index_by_name("-0"), None);
    assert_eq!(
        names.get_name_by_index(&NodeId::Place(PlaceId(0))),
        Some("a-7".to_string())
    );
    names.register(NodeId::Place(PlaceId(1)));
    assert_eq!(
        names.get_name_by_index(&NodeId::Place(PlaceId(1))),
        Some("aa-1".to_string())
    );
    assert_eq!(
        names.get_index_by_name("aa-1"),
        Some(NodeId::Place(PlaceId(1)))
    );
}

#[test]
fn errors_of_a_net_say_what_went_wrong() {
    assert_eq!(
        NetError::CyclicPriorities.to_string(),
        "Cyclic priorities in Petri net"
    );
    assert_eq!(
        NetError::InvalidTimeRange.to_string(),
        "Invalid time range found"
    );
    assert_eq!(
        NetError::UnsupportedArc(Kind::Test(PlaceId(1), TransitionId(2), 3)).to_string(),
        "Unsupported arc test 3 from 1 for transition 2"
    );
    assert_eq!(
        NetError::InvalidTransition(TransitionId(12)).to_string(),
        "Invalid transition id 12"
    );
    assert_eq!(
        NetError::InvalidPlace(PlaceId(0)).to_string(),
        "Invalid place id 0"
    );
    assert_eq!(
        NetError::DuplicatedName("p".to_string()).to_string(),
        "You try to create duplicated name in the net: p"
    );
    assert_eq!(
        NetError::UnknownIdentifier("q".to_string()).to_string(),
        "Identifier q not found in the net."
    );
    assert_eq!(NetError::InvalidArc.to_string(), "Invalid arc in the net");
}

#[test]
fn arcs_say_what_they_do() {
    let pl = PlaceId(4);
    let tr = TransitionId(5);
    assert_eq!(
        Kind::Consume(pl, tr, 6).to_string(),
        "consume 6 from 5 for transition 4"
    );
    assert_eq!(
        Kind::Produce(pl, tr, 6).to_string(),
        "produce 6 in 4 for transition 5"
    );
    assert_eq!(
        Kind::Test(pl, tr, 6).to_string(),
        "test 6 from 4 for transition 5"
    );
    assert_eq!(
        Kind::Inhibitor(pl, tr, 6).to_string(),
        "Inhibit transition 5 when 4 contains more than 6"
    );
    assert_eq!(
        Kind::StopWatch(pl, tr, 6).to_string(),
        "stopwatch on place 4 with value 6 for transition 5"
    );
    assert_eq!(
        Kind::StopWatchInhibitor(pl, tr, 6).to_string(),
        "stopwatch inhibitor on place 4 with value 6 for transition 5"
    );
}

#[test]
fn errors_of_the_parser_name_the_line_and_the_column() {
    let at = Position { line: 3, column: 14 };
    assert_eq!(
        ParserError::Utf8Error(at).to_string(),
        "Invalid UTF8 char at line 3 column 14"
    );
    assert_eq!(
        ParserError::InvalidChar(at, "expected a digit".to_string()).to_string(),
        "Invalid char found at line 3 column 14: expected a digit"
    );
    assert_eq!(
        ParserError::UnexpectedToken(
            token::Token {
                kind: token::Kind::Int(8),
                position: at,
            },
            "expected a name".to_string()
        )
        .to_string(),
        "Invalid token Int(8) found at line 3 column 14: expected a name"
    );
    assert_eq!(
        ParserError::UnexpectedIdentifier(at, "t0".to_string()).to_string(),
        "Unexpected identifier t0 at line 3 column 14"
    );
    assert_eq!(
        ParserError::UnexpectedArc(at, token::Kind::TestArc).to_string(),
        "Unexpected arc TestArc at line 3 column 14"
    );
    assert_eq!(
        ParserError::UnsupportedArc(at, Kind::StopWatch(PlaceId(0), TransitionId(1), 2))
            .to_string(),
        "Unsupported arc stopwatch on place 0 with value 2 for transition 1 at line 3 column 14"
    );
    assert_eq!(
        ParserError::Net(NetError::InvalidArc).to_string(),
        "Invalid arc in the net"
    );
}

#[test]
fn tokens_and_bounds_say_what_they_are() {
    assert_eq!(Bound::Closed(2).to_string(), "Close(2)");
    assert_eq!(Bound::Open(3).to_string(), "Open(3)");
    assert_eq!(Bound::Infinity.to_string(), "Infinity");
    assert_eq!(
        token::Kind::TimeInterval(Bound::Closed(1), Bound::Infinity).to_string(),
        "TimeInterval(Close(1),Infinity)"
    );
    assert_eq!(
        token::Kind::Identifier("p1".to_string()).to_string(),
        "Identifier(p1)"
    );
    assert_eq!(
        token::Kind::Comment(" hello".to_string()).to_string(),
        "Comment( hello)"
    );
    assert_eq!(token::Kind::EndOfFile.to_string(), "EndOfFile");
    assert_eq!(token::Kind::NewLine.to_string(), "NewLine");
    assert_eq!(
        token::Kind::StopWatchInhibitorArc.to_string(),
        "StopWatchInhibitorArc"
    );
}

fn read_with<P: Parse<pnets::timed::Net>>(reader: P) -> Result<pnets::timed::Net, P::Error> {
    reader.parse()
}

fn write_with<N, E: Export<N>>(writer: &mut E, net: &N) -> Result<String, E::Error> {
    writer.export(net)
}

#[test]
fn a_reader_and_a_writer_are_used_through_their_traits() {
    let timed = match read_with(Parser::new(b"net n\ntr t p*2 -> q\npl p (1)\n")) {
        Ok(net) => net,
        Err(e) => panic!("{}", e.to_string()),
    };
    assert_eq!(timed.name, "n");
    let mut exporter = ExporterBuilder::new().build();
    let text = write_with(&mut exporter, &timed).unwrap();
    assert_eq!(text, "net n\npl p (1)\ntr t p*2 -> q \n");
    let basic = Net::from_timed(&timed).unwrap();
    let again = write_with(&mut exporter, &basic).unwrap();
    assert_eq!(again, text);
}
