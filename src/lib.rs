//! Parsing of chemical formula units and equations such as `4Fe+3O2->2Fe2O3`
//! into a syntax tree.
//!
//! A lexer reads the text one token at a time; a parser turns the tokens
//! into a tree with a single stack of partly built nodes and one token of
//! lookahead. The first lexical or structural error ends the parse. A `-`
//! that ends the input is dropped; a group still open at the end of the
//! input is an error.
use vstd::prelude::*;

pub mod ast_types;
pub mod canonical;
pub mod lexer;
pub mod parser;
pub mod theorems;
pub mod token_types;

use crate::ast_types::{Node, Tree};
use crate::lexer::{LazyTokenStream, lex_items};
use crate::parser::{Error, outcome, parse_items};

verus! {

/// The result of parsing the text `s`: its tokens, read lazily, run through
/// the parser.
pub open spec fn parse_text(s: Seq<char>) -> Result<Tree, Error> {
    parse_items(lex_items(s, 0))
}

/// Parses a string into the root node of its tree, or the first error met.
pub fn parse(string: String) -> (r: Result<Box<Node>, Error>)
    ensures
        outcome(r) == parse_text(string@),
{
    let stream = LazyTokenStream::new(&string);
    parser::parse(stream)
}

} // verus!
