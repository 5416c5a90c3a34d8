use rollup::parse::{index_to_letter, letter_to_index, lex, parse, Expectation, ParseError, Token};
use rollup::sheet::{Cell, CellIndex, Formula, Range};

#[test]
fn it_works() {
    let s = "=SUM(A1:A2)";
    let expected_output = Cell::Formula(Formula::Function(
        "SUM".to_string(),
        vec![Formula::Range(Range {
            start: (0, 0),
            end: (0, 1),
        })],
    ));
    assert_eq!(parse(s).unwrap(), expected_output);
}

#[test]
fn letters_to_indices() {
    assert_eq!(letter_to_index("A"), 0);
    assert_eq!(letter_to_index("Z"), 25);
    assert_eq!(letter_to_index("AA"), 26);
    assert_eq!(letter_to_index("AZ"), 51);
    assert_eq!(letter_to_index("BA"), 52);
    assert_eq!(letter_to_index("ZZ"), 701);
    assert_eq!(letter_to_index("AAA"), 702);
}

#[test]
fn indices_to_letters() {
    assert_eq!(index_to_letter(0), "A");
    assert_eq!(index_to_letter(25), "Z");
    assert_eq!(index_to_letter(26), "AA");
    assert_eq!(index_to_letter(27), "AB");
    assert_eq!(index_to_letter(701), "ZZ");
    assert_eq!(index_to_letter(702), "AAA");
    assert_eq!(index_to_letter(u32::MAX), "MWLQKWV");
}

#[test]
fn codec_round_trip() {
    for n in [0u32, 1, 25, 26, 51, 52, 675, 701, 702, 18277, 18278, 1_000_000, u32::MAX] {
        assert_eq!(letter_to_index(&index_to_letter(n)), n);
    }
    for s in ["A", "Q", "Z", "AA", "AZ", "ZZ", "ABC", "XFD", "MWLQKWV"] {
        assert_eq!(index_to_letter(letter_to_index(s)), s);
    }
}

#[test]
fn lexes_all_token_kinds() {
    let toks = lex("=F_x(A12, \"a b\") :\t?");
    assert_eq!(
        toks,
        vec![
            Token::Equals,
            Token::Identifier("F_x".to_string()),
            Token::LParen,
            Token::Identifier("A".to_string()),
            Token::Number(12),
            Token::Comma,
            Token::String("a b".to_string()),
            Token::RParen,
            Token::Colon,
            Token::Error,
        ]
    );
}

#[test]
fn lexes_unclosed_quote_and_huge_number_as_errors() {
    assert_eq!(
        lex("\"ab"),
        vec![Token::Error, Token::Identifier("ab".to_string())]
    );
    assert_eq!(lex("9223372036854775807"), vec![Token::Number(i64::MAX)]);
    assert_eq!(lex("9223372036854775808"), vec![Token::Error]);
    assert_eq!(lex(""), vec![]);
}

#[test]
fn bare_numbers_are_not_arguments() {
    assert_eq!(
        parse("=SUM(1,2)"),
        Err(ParseError::Unexpected { expected: Expectation::Expression, position: 3 })
    );
}

#[test]
fn zero_argument_call() {
    let cell = parse("=FOO()").unwrap();
    assert_eq!(cell, Cell::Formula(Formula::Function("FOO".to_string(), vec![])));
    assert_eq!(cell.get_dependencies(), Vec::<CellIndex>::new());
}

#[test]
fn plain_text_cell() {
    let cell = parse("hello").unwrap();
    assert_eq!(cell, Cell::Text("hello".to_string()));
    assert_eq!(cell.get_dependencies(), Vec::<CellIndex>::new());
    assert_eq!(parse("").unwrap(), Cell::Text("".to_string()));
    assert_eq!(parse("5").unwrap(), Cell::Text("5".to_string()));
}

#[test]
fn nested_calls_and_text() {
    let cell = parse("= IF(\"x\", SUM(B2:C3), MAX())").unwrap();
    assert_eq!(
        cell,
        Cell::Formula(Formula::Function(
            "IF".to_string(),
            vec![
                Formula::Text("x".to_string()),
                Formula::Function(
                    "SUM".to_string(),
                    vec![Formula::Range(Range { start: (1, 1), end: (2, 2) })]
                ),
                Formula::Function("MAX".to_string(), vec![]),
            ]
        ))
    );
}

#[test]
fn parse_is_deterministic() {
    let s = "=SUM(A1:B2, AVG(C3:C4))";
    assert_eq!(parse(s), parse(s));
}

#[test]
fn parse_errors() {
    let unexpected = |expected, position| Err(ParseError::Unexpected { expected, position });
    assert_eq!(parse("="), unexpected(Expectation::Expression, 1));
    assert_eq!(parse("=SUM"), unexpected(Expectation::OpenParenOrRow, 2));
    assert_eq!(parse("=A1"), unexpected(Expectation::Colon, 3));
    assert_eq!(parse("=A1:2"), unexpected(Expectation::ColumnLetters, 4));
    assert_eq!(parse("=A1:B"), unexpected(Expectation::RowNumber, 5));
    assert_eq!(parse("=SUM(A1:A2"), unexpected(Expectation::CommaOrCloseParen, 8));
    assert_eq!(parse("=SUM(A1:A2;"), unexpected(Expectation::CommaOrCloseParen, 8));
    assert_eq!(parse("=SUM(A1:A2 x"), unexpected(Expectation::CommaOrCloseParen, 8));
    assert_eq!(parse("=a1:B2"), Err(ParseError::Unsupported { position: 1 }));
    assert_eq!(parse("=A0:B2"), Err(ParseError::Unsupported { position: 1 }));
    assert_eq!(parse("=A1:B0"), Err(ParseError::Unsupported { position: 4 }));
    assert_eq!(parse("=A1:AAAAAAAAA1"), Err(ParseError::Unsupported { position: 4 }));
}

#[test]
fn quoted_cell_text_loses_its_quotes() {
    assert_eq!(parse("\"hello\"").unwrap(), Cell::Text("hello".to_string()));
    assert_eq!(parse(" \"a b\" c").unwrap(), Cell::Text("a b".to_string()));
    assert_eq!(parse("\"open").unwrap(), Cell::Text("\"open".to_string()));
}

#[test]
fn reversed_ranges_are_rejected() {
    assert_eq!(parse("=SUM(B1:A1)"), Err(ParseError::Reversed { position: 3 }));
    assert_eq!(parse("=A2:A1"), Err(ParseError::Reversed { position: 1 }));
    assert_eq!(
        parse("=A1:A1").unwrap(),
        Cell::Formula(Formula::Range(Range { start: (0, 0), end: (0, 0) }))
    );
}
