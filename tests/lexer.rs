use chem_parse::lexer::{collect_tokens, LazyTokenStream};
use chem_parse::token_types::{LexError, ParenType, TokenMetadata, Tokens};

fn lex(s: &str) -> Result<Vec<Tokens>, LexError> {
    let to_parse = String::from(s);
    collect_tokens(LazyTokenStream::new(&to_parse))
}

#[test]
fn lexer_can_parse_simple_element() {
    let to_parse = &String::from("Fe");
    let stream = LazyTokenStream::new(to_parse);

    let res = collect_tokens(stream);

    assert!(res.is_ok(), "An error occurred while parsing");

    let exp = vec![Tokens::Element { data: "Fe".to_owned(), meta: TokenMetadata::new("Fe", 0) }];

    assert_eq!(exp, res.unwrap());
}

#[test]
fn lexer_can_parse_compound_with_subscript_and_coeffiecient() {
    let to_parse = &String::from("2FeCO3");
    let stream = LazyTokenStream::new(to_parse);

    let res = collect_tokens(stream);

    assert!(res.is_ok(), "An error occurred while parsing");

    let exp = vec![
        Tokens::Number { data: 2, meta: TokenMetadata::new("2", 0) },
        Tokens::Element { data: "Fe".to_owned(), meta: TokenMetadata::new("Fe", 1) },
        Tokens::Element { data: "C".to_owned(), meta: TokenMetadata::new("C", 3) },
        Tokens::Element { data: "O".to_owned(), meta: TokenMetadata::new("O", 4) },
        Tokens::Number { data: 3, meta: TokenMetadata::new("3", 5) },
    ];

    assert_eq!(exp, res.unwrap());
}

#[test]
fn lexer_can_parse_forumula() {
    let to_parse = &String::from("2Fe+Na2F3->2FeNa+F3");
    let stream = LazyTokenStream::new(to_parse);

    let res = collect_tokens(stream);

    assert!(res.is_ok(), "An error occurred while parsing: {:?}", res.as_ref().err());

    let exp = vec![
        Tokens::Number { data: 2, meta: TokenMetadata::new("2", 0) },
        Tokens::Element { data: "Fe".to_owned(), meta: TokenMetadata::new("Fe", 1) },
        Tokens::Plus { meta: TokenMetadata::new("+", 3) },
        Tokens::Element { data: "Na".to_owned(), meta: TokenMetadata::new("Na", 4) },
        Tokens::Number { data: 2, meta: TokenMetadata::new("2", 6) },
        Tokens::Element { data: "F".to_owned(), meta: TokenMetadata::new("F", 7) },
        Tokens::Number { data: 3, meta: TokenMetadata::new("3", 8) },
        Tokens::Yields { meta: TokenMetadata::new("->", 9) },
        Tokens::Number { data: 2, meta: TokenMetadata::new("2", 11) },
        Tokens::Element { data: "Fe".to_owned(), meta: TokenMetadata::new("Fe", 12) },
        Tokens::Element { data: "Na".to_owned(), meta: TokenMetadata::new("Na", 14) },
        Tokens::Plus { meta: TokenMetadata::new("+", 16) },
        Tokens::Element { data: "F".to_owned(), meta: TokenMetadata::new("F", 17) },
        Tokens::Number { data: 3, meta: TokenMetadata::new("3", 17) },
    ];

    assert_eq!(exp, res.unwrap());
}

#[test]
fn lexer_records_metadata() {
    let to_parse = String::from("2Fe->(O)");
    let mut stream = LazyTokenStream::new(&to_parse);
    let mut seen = Vec::new();
    while let Some(item) = stream.next() {
        let tok = item.unwrap();
        let m = tok.meta();
        seen.push((m.raw.clone(), m.location));
    }
    let exp = vec![
        ("2".to_owned(), 0),
        ("Fe".to_owned(), 1),
        ("->".to_owned(), 3),
        ("(".to_owned(), 5),
        ("O".to_owned(), 6),
        (")".to_owned(), 7),
    ];
    assert_eq!(exp, seen);
}

#[test]
fn lexer_parens_and_numbers() {
    let exp = vec![
        Tokens::Paren { data: ParenType::OPEN, meta: TokenMetadata::new("(", 0) },
        Tokens::Element { data: "O".to_owned(), meta: TokenMetadata::new("O", 1) },
        Tokens::Element { data: "H".to_owned(), meta: TokenMetadata::new("H", 2) },
        Tokens::Paren { data: ParenType::CLOSE, meta: TokenMetadata::new(")", 3) },
        Tokens::Number { data: 65535, meta: TokenMetadata::new("65535", 4) },
    ];
    assert_eq!(exp, lex("(OH)65535").unwrap());
    assert_eq!(lex("007").unwrap(), vec![Tokens::Number { data: 7, meta: TokenMetadata::new("007", 0) }]);
}

#[test]
fn lexer_errors() {
    assert_eq!(lex("65536").unwrap_err(), LexError::NumberOverflow);
    assert_eq!(lex("Fe-O").unwrap_err(), LexError::IncompleteYields);
    assert_eq!(lex("Abcd").unwrap_err(), LexError::ThreeLetterElement);
    assert_eq!(lex("Abc").unwrap_err(), LexError::ThreeLetterElement);
    assert_eq!(lex("Fe O").unwrap_err(), LexError::InvalidCharacter(' '));
    assert_eq!(lex("fe").unwrap_err(), LexError::InvalidCharacter('f'));
    assert_eq!(lex("Fe$").unwrap_err(), LexError::InvalidCharacter('$'));
    assert_eq!(lex("é").unwrap_err(), LexError::InvalidCharacter('é'));
}

#[test]
fn lexer_trailing_dash_is_dropped() {
    assert_eq!(
        lex("Fe-").unwrap(),
        vec![Tokens::Element { data: "Fe".to_owned(), meta: TokenMetadata::new("Fe", 0) }]
    );
    assert_eq!(lex("-").unwrap(), vec![]);
}

#[test]
fn lexer_stays_exhausted() {
    let to_parse = String::from("O-");
    let mut stream = LazyTokenStream::new(&to_parse);
    assert!(stream.next().is_some());
    assert!(stream.next().is_none());
    assert!(stream.next().is_none());
    let bad = String::from("$O");
    let mut stream = LazyTokenStream::new(&bad);
    assert_eq!(stream.next().unwrap().unwrap_err(), LexError::InvalidCharacter('$'));
    assert!(stream.next().is_none());
}

#[test]
fn lexer_peek_reads_nothing() {
    let to_parse = String::from("12O");
    let mut stream = LazyTokenStream::new(&to_parse);
    assert_eq!(stream.peek(), Some(12));
    assert_eq!(stream.peek(), Some(12));
    assert!(stream.next().is_some());
    assert_eq!(stream.peek(), None);
}

#[test]
fn token_equality_ignores_metadata() {
    let a = Tokens::Number { data: 3, meta: TokenMetadata::new("3", 17) };
    let b = Tokens::Number { data: 3, meta: TokenMetadata::new("3", 18) };
    let c = Tokens::Number { data: 4, meta: TokenMetadata::new("4", 18) };
    assert_eq!(a, b);
    assert_ne!(a, c);
    assert_ne!(Tokens::Plus { meta: TokenMetadata::new("+", 0) }, Tokens::Yields { meta: TokenMetadata::new("->", 0) });
}
