use pnets::timed::Bound;
use pnets::tina::lexer::Lexer;
use pnets::tina::reader::Position;
use pnets::tina::token::{Kind, Token};

#[test]
fn test_complex_identifier() {
    let mut lexer = Lexer::new("{Complex \\{\\}\\\\ identifier}".as_bytes());
    assert_eq!(
        lexer.read().unwrap(),
        Token {
            kind: Kind::Identifier("Complex {}\\ identifier".to_string()),
            position: Position { line: 1, column: 1 },
        }
    )
}

#[test]
fn test_invalid_identifier() {
    let mut lexer = Lexer::new("{{}".as_bytes());
    let r = lexer.read();
    assert!(r.is_err());
}

#[test]
fn test_peek() {
    let mut lexer = Lexer::new("\nnet *".as_bytes());
    let _ = lexer.peek();
    assert_eq!(
        lexer.peek().unwrap(),
        Token {
            kind: Kind::NewLine,
            position: Position { line: 1, column: 1 },
        }
    );
    let _ = lexer.read();
    assert_eq!(
        lexer.peek().unwrap(),
        Token {
            kind: Kind::Net,
            position: Position { line: 2, column: 1 },
        }
    );
}

#[test]
fn test_newline() {
    let mut lexer = Lexer::new("\n\n".as_bytes());
    assert_eq!(
        lexer.parse_next_token().unwrap(),
        Token {
            kind: Kind::NewLine,
            position: Position { line: 1, column: 1 },
        }
    );
    assert_eq!(
        lexer.parse_next_token().unwrap(),
        Token {
            kind: Kind::NewLine,
            position: Position { line: 2, column: 1 },
        }
    );
}

#[test]
fn test_whitespace() {
    let mut lexer = Lexer::new("   \r\n\t\t\r\n".as_bytes());
    assert_eq!(
        lexer.parse_next_token().unwrap(),
        Token {
            kind: Kind::NewLine,
            position: Position { line: 1, column: 5 },
        }
    );
    assert_eq!(
        lexer.parse_next_token().unwrap(),
        Token {
            kind: Kind::NewLine,
            position: Position { line: 2, column: 4 },
        }
    );
}

#[test]
fn test_tr() {
    let mut lexer = Lexer::new("tr".as_bytes());
    assert_eq!(
        lexer.parse_next_token().unwrap(),
        Token {
            kind: Kind::Transition,
            position: Position { line: 1, column: 1 },
        }
    );
}

#[test]
fn test_gt() {
    let mut lexer = Lexer::new(">".as_bytes());
    assert_eq!(
        lexer.parse_next_token().unwrap(),
        Token {
            kind: Kind::GreaterThan,
            position: Position { line: 1, column: 1 },
        }
    );
}

#[test]
fn test_lt() {
    let mut lexer = Lexer::new("<".as_bytes());
    assert_eq!(
        lexer.parse_next_token().unwrap(),
        Token {
            kind: Kind::LessThan,
            position: Position { line: 1, column: 1 },
        }
    );
}

#[test]
fn test_comments() {
    let mut lexer = Lexer::new("#tr\nnet  net".as_bytes());
    assert_eq!(
        lexer.parse_next_token().unwrap(),
        Token {
            kind: Kind::Comment("tr".to_string()),
            position: Position { line: 1, column: 1 },
        }
    );
    assert_eq!(
        lexer.parse_next_token().unwrap(),
        Token {
            kind: Kind::NewLine,
            position: Position { line: 1, column: 4 },
        }
    );
    assert_eq!(
        lexer.parse_next_token().unwrap(),
        Token {
            kind: Kind::Net,
            position: Position { line: 2, column: 1 },
        }
    );
}

#[test]
fn test_net() {
    let mut lexer = Lexer::new("net".as_bytes());
    assert_eq!(
        lexer.parse_next_token().unwrap(),
        Token {
            kind: Kind::Net,
            position: Position { line: 1, column: 1 },
        }
    );
}

#[test]
fn test_pl() {
    let mut lexer = Lexer::new("pl".as_bytes());
    assert_eq!(
        lexer.parse_next_token().unwrap(),
        Token {
            kind: Kind::Place,
            position: Position { line: 1, column: 1 },
        }
    );
}

#[test]
fn test_nt() {
    let mut lexer = Lexer::new("nt".as_bytes());
    assert_eq!(
        lexer.parse_next_token().unwrap(),
        Token {
            kind: Kind::Note,
            position: Position { line: 1, column: 1 },
        }
    );
}

#[test]
fn test_lb() {
    let mut lexer = Lexer::new("lb".as_bytes());
    assert_eq!(
        lexer.parse_next_token().unwrap(),
        Token {
            kind: Kind::Label,
            position: Position { line: 1, column: 1 },
        }
    );
}

#[test]
fn test_pr() {
    let mut lexer = Lexer::new("pr".as_bytes());
    assert_eq!(
        lexer.parse_next_token().unwrap(),
        Token {
            kind: Kind::Priority,
            position: Position { line: 1, column: 1 },
        }
    );
}

#[test]
fn test_stopwatch() {
    let mut lexer = Lexer::new("!".as_bytes());
    assert_eq!(
        lexer.parse_next_token().unwrap(),
        Token {
            kind: Kind::StopWatchArc,
            position: Position { line: 1, column: 1 },
        }
    );
}

#[test]
fn test_stopwatchinhibitor() {
    let mut lexer = Lexer::new("!-".as_bytes());
    assert_eq!(
        lexer.parse_next_token().unwrap(),
        Token {
            kind: Kind::StopWatchInhibitorArc,
            position: Position { line: 1, column: 1 },
        }
    );
}

#[test]
fn test_identifier() {
    let mut lexer = Lexer::new("label_comp'lex".as_bytes());
    assert_eq!(
        lexer.parse_next_token().unwrap(),
        Token {
            kind: Kind::Identifier("label_comp'lex".to_string()),
            position: Position { line: 1, column: 1 },
        }
    );
}

#[test]
fn test_time_interval() {
    let mut lexer = Lexer::new("[0,1][0,w[]0,1[".as_bytes());
    assert_eq!(
        lexer.parse_next_token().unwrap(),
        Token {
            kind: Kind::TimeInterval(Bound::Closed(0), Bound::Closed(1)),
            position: Position { line: 1, column: 1 },
        }
    );
    assert_eq!(
        lexer.parse_next_token().unwrap(),
        Token {
            kind: Kind::TimeInterval(Bound::Closed(0), Bound::Infinity),
            position: Position { line: 1, column: 6 },
        }
    );
    assert_eq!(
        lexer.parse_next_token().unwrap(),
        Token {
            kind: Kind::TimeInterval(Bound::Open(0), Bound::Open(1)),
            position: Position {
                line: 1,
                column: 11,
            },
        }
    );
}

#[test]
fn test_arrow() {
    let mut lexer = Lexer::new("->".as_bytes());
    assert_eq!(
        lexer.parse_next_token().unwrap(),
        Token {
            kind: Kind::Arrow,
            position: Position { line: 1, column: 1 },
        }
    );
}

#[test]
fn test_invalid_arrow() {
    let mut lexer = Lexer::new("-a".as_bytes());
    assert!(lexer.parse_next_token().is_err());
}

#[test]
fn test_full_line() {
    let mut lexer = Lexer::new("tr t0 : a [1,1] p0*3 -> p1".as_bytes());
    assert_eq!(
        lexer.parse_next_token().unwrap(),
        Token {
            kind: Kind::Transition,
            position: Position { line: 1, column: 1 },
        }
    );
    assert_eq!(
        lexer.parse_next_token().unwrap(),
        Token {
            kind: Kind::Identifier("t0".to_string()),
            position: Position { line: 1, column: 4 },
        }
    );
    assert_eq!(
        lexer.parse_next_token().unwrap(),
        Token {
            kind: Kind::InlineLabel,
            position: Position { line: 1, column: 7 },
        }
    );

    assert_eq!(
        lexer.parse_next_token().unwrap(),
        Token {
            kind: Kind::Identifier("a".to_string()),
            position: Position { line: 1, column: 9 },
        }
    );
    assert_eq!(
        lexer.parse_next_token().unwrap(),
        Token {
            kind: Kind::TimeInterval(Bound::Closed(1), Bound::Closed(1)),
            position: Position {
                line: 1,
                column: 11,
            },
        }
    );
    assert_eq!(
        lexer.parse_next_token().unwrap(),
        Token {
            kind: Kind::Identifier("p0".to_string()),
            position: Position {
                line: 1,
                column: 17,
            },
        }
    );
    assert_eq!(
        lexer.parse_next_token().unwrap(),
        Token {
            kind: Kind::NormalArc,
            position: Position {
                line: 1,
                column: 19,
            },
        }
    );
    assert_eq!(
        lexer.parse_next_token().unwrap(),
        Token {
            kind: Kind::Identifier("3".to_string()),
            position: Position {
                line: 1,
                column: 20,
            },
        }
    );
    assert_eq!(
        lexer.parse_next_token().unwrap(),
        Token {
            kind: Kind::Arrow,
            position: Position {
                line: 1,
                column: 22,
            },
        }
    );
    assert_eq!(
        lexer.parse_next_token().unwrap(),
        Token {
            kind: Kind::Identifier("p1".to_string()),
            position: Position {
                line: 1,
                column: 25,
            },
        }
    );
}

#[test]
fn test_invalid_time_interval() {
    let mut lexer = Lexer::new("a".as_bytes());
    assert!(lexer.parse_time_interval().is_err());
    lexer = Lexer::new("[a,w]".as_bytes());
    assert!(lexer.parse_time_interval().is_err());
    lexer = Lexer::new("[45w]".as_bytes());
    assert!(lexer.parse_time_interval().is_err());
    lexer = Lexer::new("[45,34a".as_bytes());
    assert!(lexer.parse_time_interval().is_err());
    lexer = Lexer::new("[45,a]".as_bytes());
    assert!(lexer.parse_time_interval().is_err());
    lexer = Lexer::new("[45,w]".as_bytes());
    assert!(lexer.parse_time_interval().is_err());
    lexer = Lexer::new("[45,wa".as_bytes());
    assert!(lexer.parse_time_interval().is_err());
}

fn kinds(text: &str) -> Vec<Kind> {
    let mut lexer = Lexer::new(text.as_bytes());
    let mut all = vec![];
    loop {
        let token = lexer.read().unwrap();
        if token.kind == Kind::EndOfFile {
            return all;
        }
        all.push(token.kind);
    }
}

#[test]
fn numbers_follow_names_and_arc_marks_only() {
    assert_eq!(
        kinds("p0*3 p1?4 p2?-5 p3!6 p4!-7 p5 8"),
        vec![
            Kind::Identifier("p0".to_string()),
            Kind::NormalArc,
            Kind::Int(3),
            Kind::Identifier("p1".to_string()),
            Kind::TestArc,
            Kind::Int(4),
            Kind::Identifier("p2".to_string()),
            Kind::InhibitorArc,
            Kind::Int(5),
            Kind::Identifier("p3".to_string()),
            Kind::StopWatchArc,
            Kind::Int(6),
            Kind::Identifier("p4".to_string()),
            Kind::StopWatchInhibitorArc,
            Kind::Int(7),
            Kind::Identifier("p5".to_string()),
            Kind::Int(8),
        ]
    );
    assert_eq!(
        kinds("tr 12"),
        vec![Kind::Transition, Kind::Identifier("12".to_string())]
    );
}

#[test]
fn numbers_take_brackets_and_units() {
    assert_eq!(kinds("(43)"), vec![Kind::Int(43)]);
    assert_eq!(kinds("(43K)"), vec![Kind::Int(43_000)]);
    assert_eq!(kinds("(2M)"), vec![Kind::Int(2_000_000)]);
    assert_eq!(kinds("(7"), vec![Kind::Int(7)]);
    assert_eq!(
        kinds("p*5K"),
        vec![Kind::Identifier("p".to_string()), Kind::NormalArc, Kind::Int(5_000)]
    );
    assert_eq!(
        kinds("[2K,3M]"),
        vec![Kind::TimeInterval(Bound::Closed(2_000), Bound::Closed(3_000_000))]
    );
    assert_eq!(
        kinds("]4,w["),
        vec![Kind::TimeInterval(Bound::Open(4), Bound::Infinity)]
    );
    assert_eq!(
        kinds("[4,9["),
        vec![Kind::TimeInterval(Bound::Closed(4), Bound::Open(9))]
    );
}

#[test]
fn numbers_that_do_not_fit_are_refused() {
    let mut lexer = Lexer::new("(99999999999999999999999999)".as_bytes());
    assert!(lexer.read().is_err());
    let mut lexer = Lexer::new("(18446744073709551615M)".as_bytes());
    assert!(lexer.read().is_err());
    let mut lexer = Lexer::new("()".as_bytes());
    assert!(lexer.read().is_err());
}

#[test]
fn keywords_are_read_in_any_case() {
    assert_eq!(
        kinds("TR Tr tr NET nEt LB lb NT na Na PL pL PR pr"),
        vec![
            Kind::Transition,
            Kind::Transition,
            Kind::Transition,
            Kind::Net,
            Kind::Net,
            Kind::Label,
            Kind::Label,
            Kind::Note,
            Kind::Note,
            Kind::Note,
            Kind::Place,
            Kind::Place,
            Kind::Priority,
            Kind::Priority,
        ]
    );
    assert_eq!(
        kinds("trx nets"),
        vec![
            Kind::Identifier("trx".to_string()),
            Kind::Identifier("nets".to_string())
        ]
    );
}

#[test]
fn names_in_braces_take_any_character() {
    assert_eq!(kinds("{}"), vec![Kind::Identifier("".to_string())]);
    assert_eq!(
        kinds("{a b -> #}"),
        vec![Kind::Identifier("a b -> #".to_string())]
    );
    assert_eq!(
        kinds("{ends with \\\\}"),
        vec![Kind::Identifier("ends with \\".to_string())]
    );
    assert_eq!(
        kinds("{\\{\\}}x"),
        vec![
            Kind::Identifier("{}".to_string()),
            Kind::Identifier("x".to_string())
        ]
    );
    let mut lexer = Lexer::new("{never closed".as_bytes());
    assert!(lexer.read().is_err());
    let mut lexer = Lexer::new("{a}b}".as_bytes());
    assert_eq!(lexer.read().unwrap().kind, Kind::Identifier("a".to_string()));
}

#[test]
fn comments_end_with_the_line_or_the_text() {
    assert_eq!(
        kinds("# one\n#two"),
        vec![
            Kind::Comment(" one".to_string()),
            Kind::NewLine,
            Kind::Comment("two".to_string())
        ]
    );
}

#[test]
fn peek_does_not_read() {
    let mut lexer = Lexer::new("a b".as_bytes());
    let first = lexer.peek().unwrap();
    assert_eq!(lexer.peek().unwrap(), first);
    assert_eq!(lexer.read().unwrap(), first);
    assert_eq!(lexer.current(), first);
    assert_eq!(
        lexer.read().unwrap(),
        Token {
            kind: Kind::Identifier("b".to_string()),
            position: Position { line: 1, column: 3 },
        }
    );
    assert_eq!(lexer.read().unwrap().kind, Kind::EndOfFile);
    assert_eq!(lexer.read().unwrap().kind, Kind::EndOfFile);
}
