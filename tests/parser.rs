use chem_parse::ast_types::Node;
use chem_parse::parse;
use chem_parse::parser::{parse as parse_tokens, Error, ParseError, TokenList};
use chem_parse::token_types::{LexError, TokenMetadata, Tokens};

fn el(n: u16, s: &str) -> Node {
    Node::Element(n, s.to_owned())
}

fn run(s: &str) -> Result<Node, Error> {
    parse(String::from(s)).map(|b| *b)
}

fn from_tokens(stream: Vec<Tokens>) -> Result<Box<Node>, Error> {
    parse_tokens(TokenList::new(stream.into_iter().map(|t| Ok(t)).collect()))
}

#[test]
fn parser_can_parse_equation() {
    let stream = vec![
        Tokens::Number { data: 2, meta: TokenMetadata::new("2", 0) },
        Tokens::Element { data: "Fe".to_owned(), meta: TokenMetadata::new("Fe", 1) },
        Tokens::Plus { meta: TokenMetadata::new("+", 3) },
        Tokens::Element { data: "Na".to_owned(), meta: TokenMetadata::new("Na", 4) },
        Tokens::Number { data: 2, meta: TokenMetadata::new("2", 6) },
        Tokens::Element { data: "F".to_owned(), meta: TokenMetadata::new("F", 7) },
        Tokens::Number { data: 3, meta: TokenMetadata::new("3", 8) },
        Tokens::Yields { meta: TokenMetadata::new("->", 9) },
        Tokens::Number { data: 2, meta: TokenMetadata::new("2", 11) },
        Tokens::Element { data: "Fe".to_owned(), meta: TokenMetadata::new("Fe", 12) },
        Tokens::Element { data: "Na".to_owned(), meta: TokenMetadata::new("Na", 14) },
        Tokens::Plus { meta: TokenMetadata::new("+", 16) },
        Tokens::Element { data: "F".to_owned(), meta: TokenMetadata::new("F", 17) },
        Tokens::Number { data: 3, meta: TokenMetadata::new("3", 18) },
    ];

    let exp = Node::Equation(
        Box::new(Node::Reactants(vec![
            Node::FormulaUnit(2, vec![el(1, "Fe")]),
            Node::FormulaUnit(1, vec![el(2, "Na"), el(3, "F")]),
        ])),
        Box::new(Node::Products(vec![
            Node::FormulaUnit(2, vec![el(1, "Fe"), el(1, "Na")]),
            Node::FormulaUnit(1, vec![el(3, "F")]),
        ])),
    );

    let res = from_tokens(stream);

    assert!(res.is_ok());

    assert_eq!(exp, *res.unwrap());
}

#[test]
fn parser_can_parse_formula_unit() {
    let stream = vec![
        Tokens::Number { data: 2, meta: TokenMetadata::new("2", 0) },
        Tokens::Element { data: "Fe".to_owned(), meta: TokenMetadata::new("Fe", 1) },
        Tokens::Element { data: "C".to_owned(), meta: TokenMetadata::new("C", 3) },
        Tokens::Element { data: "O".to_owned(), meta: TokenMetadata::new("O", 4) },
        Tokens::Number { data: 3, meta: TokenMetadata::new("3", 5) },
    ];

    let exp = Node::FormulaUnit(2, vec![el(1, "Fe"), el(1, "C"), el(3, "O")]);

    let res = from_tokens(stream);

    assert!(res.is_ok());

    assert_eq!(exp, *res.unwrap());
}

#[test]
fn single_element() {
    assert_eq!(run("Fe").unwrap(), Node::FormulaUnit(1, vec![el(1, "Fe")]));
}

#[test]
fn compound_with_coefficient() {
    assert_eq!(run("2FeCO3").unwrap(), Node::FormulaUnit(2, vec![el(1, "Fe"), el(1, "C"), el(3, "O")]));
}

#[test]
fn full_equation() {
    let exp = Node::Equation(
        Box::new(Node::Reactants(vec![
            Node::FormulaUnit(4, vec![el(1, "Fe")]),
            Node::FormulaUnit(3, vec![el(2, "O")]),
        ])),
        Box::new(Node::Products(vec![Node::FormulaUnit(2, vec![el(2, "Fe"), el(3, "O")])])),
    );
    assert_eq!(run("4Fe+3O2->2Fe2O3").unwrap(), exp);
}

#[test]
fn empty_input_is_a_fresh_unit() {
    assert_eq!(run("").unwrap(), Node::FormulaUnit(1, vec![]));
}

#[test]
fn groups() {
    assert_eq!(run("()").unwrap(), Node::FormulaUnit(1, vec![Node::Group(1, vec![])]));
    assert_eq!(run("2()3").unwrap(), Node::FormulaUnit(2, vec![Node::Group(3, vec![])]));
    assert_eq!(
        run("(()2)").unwrap(),
        Node::FormulaUnit(1, vec![Node::Group(1, vec![Node::Group(2, vec![])])])
    );
}

#[test]
fn structural_errors() {
    assert_eq!(run(")").unwrap_err(), Error::Parse(ParseError::InvalidClosingParen));
    assert_eq!(run("Fe+)").unwrap_err(), Error::Parse(ParseError::InvalidClosingParen));
    assert_eq!(run("(OH)2").unwrap_err(), Error::Parse(ParseError::InvalidParent));
    assert_eq!(run("(2)").unwrap_err(), Error::Parse(ParseError::InvalidParent));
    assert_eq!(run("(+").unwrap_err(), Error::Parse(ParseError::InvalidPlus));
    assert_eq!(run("O->H->O").unwrap_err(), Error::Parse(ParseError::InvalidYieldsLocation));
    assert_eq!(run("(->").unwrap_err(), Error::Parse(ParseError::InvalidYieldsLocation));
    assert_eq!(run("(").unwrap_err(), Error::Parse(ParseError::UnexpectedStackValue));
    assert_eq!(run("Fe+O").unwrap_err(), Error::Parse(ParseError::UnexpectedStackValue));
}

#[test]
fn lexical_errors_stop_the_parse() {
    assert_eq!(run("Fe-O").unwrap_err(), Error::Lex(LexError::IncompleteYields));
    assert_eq!(run("Fe#").unwrap_err(), Error::Lex(LexError::InvalidCharacter('#')));
    assert_eq!(run("Abcd").unwrap_err(), Error::Lex(LexError::ThreeLetterElement));
    assert_eq!(run("70000Fe").unwrap_err(), Error::Lex(LexError::NumberOverflow));
    assert_eq!(run(")#").unwrap_err(), Error::Parse(ParseError::InvalidClosingParen));
}

#[test]
fn trailing_dash_is_dropped() {
    assert_eq!(run("H2O-").unwrap(), Node::FormulaUnit(1, vec![el(2, "H"), el(1, "O")]));
}

#[test]
fn number_after_children_is_invalid() {
    let stream = vec![
        Tokens::Element { data: "O".to_owned(), meta: TokenMetadata::new("O", 0) },
        Tokens::Number { data: 2, meta: TokenMetadata::new("2", 1) },
        Tokens::Number { data: 3, meta: TokenMetadata::new("3", 2) },
    ];
    assert_eq!(from_tokens(stream).unwrap_err(), Error::Parse(ParseError::InvalidParent));
}

#[test]
fn lexical_error_in_token_list() {
    let items = vec![
        Ok(Tokens::Element { data: "O".to_owned(), meta: TokenMetadata::new("O", 0) }),
        Err(LexError::NumberOverflow),
    ];
    assert_eq!(parse_tokens(TokenList::new(items)).unwrap_err(), Error::Lex(LexError::NumberOverflow));
}

#[test]
fn formula_without_separators_is_a_unit() {
    for text in ["H2O", "2FeCO3", "(())3", "Fe2O3", ""] {
        assert!(matches!(run(text).unwrap(), Node::FormulaUnit(_, _)), "{}", text);
    }
    assert_eq!(run("Fe2O3").unwrap(), Node::FormulaUnit(1, vec![el(2, "Fe"), el(3, "O")]));
}

#[test]
fn unmatched_parens_fail() {
    assert_eq!(run("Fe)").unwrap_err(), Error::Parse(ParseError::InvalidClosingParen));
    assert_eq!(run("()O)").unwrap_err(), Error::Parse(ParseError::InvalidClosingParen));
    assert_eq!(run("2(()").unwrap_err(), Error::Parse(ParseError::UnexpectedStackValue));
    assert!(run("(((").is_err());
}

#[test]
fn canonical_text_parses_to_the_same_tree() {
    let pairs = [
        ("4Fe+3O2->2Fe2O3", "4Fe1+3O2->2Fe2O3"),
        ("Fe", "1Fe1"),
        ("2FeCO3", "2Fe1C1O3"),
        ("2Fe+Na2F3->2FeNa+F3", "2Fe1+1Na2F3->2Fe1Na1+1F3"),
        ("2()3", "2()3"),
        ("(())", "1(()1)1"),
        ("", "1"),
    ];
    for (text, canonical) in pairs {
        let tree = run(text).unwrap();
        assert_eq!(tree.formula_text(), canonical);
        assert_eq!(run(canonical).unwrap(), tree, "{}", text);
    }
}

#[test]
fn error_messages() {
    assert_eq!(Error::Lex(LexError::InvalidCharacter('#')).message(), "Invalid Character: #");
    assert_eq!(Error::Lex(LexError::IncompleteYields).message(), "Yield sign (->) unfinished");
    assert_eq!(
        Error::Lex(LexError::ThreeLetterElement).message(),
        "Formula should not have 3 letter element names"
    );
    assert_eq!(
        Error::Lex(LexError::NumberOverflow).message(),
        "Could not parse number: number too large to fit in target type"
    );
    assert_eq!(Error::Parse(ParseError::InvalidParent).message(), "Invalid parent");
    assert_eq!(Error::Parse(ParseError::InvalidPlus).message(), "Invalid plus");
    assert_eq!(Error::Parse(ParseError::InvalidYieldsLocation).message(), "Invalid yields location");
    assert_eq!(Error::Parse(ParseError::InvalidClosingParen).message(), "Invalid closing paren");
    assert_eq!(Error::Parse(ParseError::StackUnderflow).message(), "Stack Underflow in group");
    assert_eq!(Error::Parse(ParseError::UnexpectedStackValue).message(), "Stack had unexpected value");
}

#[test]
fn plus_inside_group_from_tokens() {
    let stream = vec![
        Tokens::Paren { data: chem_parse::token_types::ParenType::OPEN, meta: TokenMetadata::new("(", 0) },
        Tokens::Plus { meta: TokenMetadata::new("+", 1) },
    ];
    assert_eq!(from_tokens(stream).unwrap_err(), Error::Parse(ParseError::InvalidPlus));
}

#[test]
fn formula_text_of_built_trees() {
    let t = Node::FormulaUnit(7, vec![Node::Group(2, vec![Node::Group(1, vec![])]), el(4, "Na"), el(10, "O")]);
    assert_eq!(t.formula_text(), "7(()1)2Na4O10");
    assert_eq!(Node::FormulaUnit(65535, vec![]).formula_text(), "65535");
    let mut out = String::from(">");
    el(12, "C").write_formula(&mut out);
    assert_eq!(out, ">C12");
}
