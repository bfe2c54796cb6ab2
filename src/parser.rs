//! The parser: a stack machine over tokens with one token of lookahead.
use vstd::prelude::*;

use crate::ast_types::{
    Node, Tree, trees_of, lemma_trees_of_push, lemma_trees_of_drop_last, lemma_trees_of_empty,
};
use crate::token_types::{LexError, ParenType, Token, Tokens};

verus! {

/// The ways in which a sequence of tokens can fail to form a tree.
#[derive(Debug, Clone, Copy, PartialEq, Eq, Structural)]
pub enum ParseError {
    InvalidParent,
    InvalidPlus,
    InvalidYieldsLocation,
    InvalidClosingParen,
    StackUnderflow,
    UnexpectedStackValue,
}

/// Why a parse failed: the first lexical or structural error met.
#[derive(Debug, Clone, Copy, PartialEq, Eq, Structural)]
pub enum Error {
    Lex(LexError),
    Parse(ParseError),
}

/// The one-line message that describes an error.
pub open spec fn error_text(e: Error) -> Seq<char> {
    match e {
        Error::Lex(LexError::InvalidCharacter(c)) => "Invalid Character: "@ + seq![c],
        Error::Lex(LexError::NumberOverflow) => "Could not parse number: number too large to fit in target type"@,
        Error::Lex(LexError::IncompleteYields) => "Yield sign (->) unfinished"@,
        Error::Lex(LexError::ThreeLetterElement) => "Formula should not have 3 letter element names"@,
        Error::Parse(ParseError::InvalidParent) => "Invalid parent"@,
        Error::Parse(ParseError::InvalidPlus) => "Invalid plus"@,
        Error::Parse(ParseError::InvalidYieldsLocation) => "Invalid yields location"@,
        Error::Parse(ParseError::InvalidClosingParen) => "Invalid closing paren"@,
        Error::Parse(ParseError::StackUnderflow) => "Stack Underflow in group"@,
        Error::Parse(ParseError::UnexpectedStackValue) => "Stack had unexpected value"@,
    }
}

/// Relies on `char::to_string`: a string of the one character.
#[verifier::external_body]
fn char_string(c: char) -> (r: String)
    ensures
        r@ == seq![c],
{
    c.to_string()
}

impl Error {
    /// The one-line message that describes the error.
    pub fn message(&self) -> (r: String)
        ensures
            r@ == error_text(*self),
    {
        match self {
            Error::Lex(LexError::InvalidCharacter(c)) => {
                let mut m = "Invalid Character: ".to_owned();
                let tail = char_string(*c);
                m.append(tail.as_str());
                m
            },
            Error::Lex(LexError::NumberOverflow) => "Could not parse number: number too large to fit in target type".to_owned(),
            Error::Lex(LexError::IncompleteYields) => "Yield sign (->) unfinished".to_owned(),
            Error::Lex(LexError::ThreeLetterElement) => "Formula should not have 3 letter element names".to_owned(),
            Error::Parse(ParseError::InvalidParent) => "Invalid parent".to_owned(),
            Error::Parse(ParseError::InvalidPlus) => "Invalid plus".to_owned(),
            Error::Parse(ParseError::InvalidYieldsLocation) => "Invalid yields location".to_owned(),
            Error::Parse(ParseError::InvalidClosingParen) => "Invalid closing paren".to_owned(),
            Error::Parse(ParseError::StackUnderflow) => "Stack Underflow in group".to_owned(),
            Error::Parse(ParseError::UnexpectedStackValue) => "Stack had unexpected value".to_owned(),
        }
    }
}

/// What a token source hands out: a token or the error that ended lexing.
pub open spec fn item_of(r: Result<Tokens, LexError>) -> Result<Token, LexError> {
    match r {
        Ok(t) => Ok(t.token()),
        Err(e) => Err(e),
    }
}

/// The number at the head of `items`, if the head is a number token.
pub open spec fn lookahead(items: Seq<Result<Token, LexError>>) -> Option<u16> {
    if items.len() > 0 {
        match items[0] {
            Ok(Token::Number(n)) => Some(n),
            _ => None,
        }
    } else {
        None
    }
}

/// A source of tokens read one at a time, with one token of lookahead.
/// `items` is the sequence that is still to come.
pub trait TokenStream {
    spec fn items(&self) -> Seq<Result<Token, LexError>>;

    fn next_item(&mut self) -> (r: Option<Result<Tokens, LexError>>)
        ensures
            old(self).items().len() == 0 ==> r is None && final(self).items() == old(self).items(),
            old(self).items().len() > 0 ==> r is Some && item_of(r->Some_0) == old(self).items()[0]
                && final(self).items() == old(self).items().drop_first(),
    ;

    fn peek_number(&self) -> (r: Option<u16>)
        ensures
            r == lookahead(self.items()),
    ;
}

/// A token source over a list of tokens and errors given in advance.
pub struct TokenList {
    items: Vec<Result<Tokens, LexError>>,
}

impl TokenList {
    pub closed spec fn seq(&self) -> Seq<Result<Token, LexError>> {
        self.items@.map_values(|r: Result<Tokens, LexError>| item_of(r))
    }

    pub fn new(items: Vec<Result<Tokens, LexError>>) -> (r: TokenList)
        ensures
            r.items() == items@.map_values(|r: Result<Tokens, LexError>| item_of(r)),
    {
        TokenList { items }
    }
}

impl TokenStream for TokenList {
    open spec fn items(&self) -> Seq<Result<Token, LexError>> {
        self.seq()
    }

    fn next_item(&mut self) -> (r: Option<Result<Tokens, LexError>>) {
        if self.items.len() == 0 {
            None
        } else {
            let r = self.items.remove(0);
            assert(self.seq() =~= old(self).seq().drop_first());
            Some(r)
        }
    }

    fn peek_number(&self) -> (r: Option<u16>) {
        if self.items.len() == 0 {
            None
        } else {
            match &self.items[0] {
                Ok(Tokens::Number { data, .. }) => Some(*data),
                _ => None,
            }
        }
    }
}

/// The formula unit that every side starts with: coefficient 1, no children.
pub open spec fn fresh_unit() -> Tree {
    Tree::FormulaUnit(1, Seq::empty())
}

/// The subscript that a lookahead gives: the number, or 1 without one.
pub open spec fn subscript_of(la: Option<u16>) -> u16 {
    match la {
        Some(n) => n,
        None => 1,
    }
}

/// A number sets the coefficient of the unit on top, which must have no children yet.
pub open spec fn on_number(st: Seq<Tree>, n: u16) -> Result<Seq<Tree>, ParseError> {
    if st.len() == 0 {
        Err(ParseError::StackUnderflow)
    } else {
        match st.last() {
            Tree::FormulaUnit(_, ch) => if ch.len() == 0 {
                Ok(st.drop_last().push(Tree::FormulaUnit(n, ch)))
            } else {
                Err(ParseError::InvalidParent)
            },
            _ => Err(ParseError::InvalidParent),
        }
    }
}

/// An element joins the unit on top as its last child.
pub open spec fn on_element(st: Seq<Tree>, sym: Seq<char>, sub: u16) -> Result<Seq<Tree>, ParseError> {
    if st.len() == 0 {
        Err(ParseError::StackUnderflow)
    } else {
        match st.last() {
            Tree::FormulaUnit(c, ch) => Ok(
                st.drop_last().push(Tree::FormulaUnit(c, ch.push(Tree::Element(sub, sym)))),
            ),
            _ => Err(ParseError::InvalidParent),
        }
    }
}

/// A plus closes the unit on top into the side beneath it (a new reactants
/// side where there is none) and opens a fresh unit.
pub open spec fn on_plus(st: Seq<Tree>) -> Result<Seq<Tree>, ParseError> {
    if st.len() == 0 {
        Err(ParseError::StackUnderflow)
    } else if !(st.last() is FormulaUnit) {
        Err(ParseError::InvalidPlus)
    } else {
        let u = st.last();
        let rest = st.drop_last();
        if rest.len() == 0 {
            Ok(seq![Tree::Reactants(seq![u]), fresh_unit()])
        } else {
            match rest.last() {
                Tree::Reactants(l) => Ok(rest.drop_last().push(Tree::Reactants(l.push(u))).push(fresh_unit())),
                Tree::Products(l) => Ok(rest.drop_last().push(Tree::Products(l.push(u))).push(fresh_unit())),
                _ => Err(ParseError::InvalidPlus),
            }
        }
    }
}

/// A yields sign closes the unit on top into the reactants side (a new one
/// where there is none) and opens the products side with a fresh unit.
pub open spec fn on_yields(st: Seq<Tree>) -> Result<Seq<Tree>, ParseError> {
    if st.len() == 0 {
        Err(ParseError::StackUnderflow)
    } else if !(st.last() is FormulaUnit) {
        Err(ParseError::InvalidYieldsLocation)
    } else {
        let u = st.last();
        let rest = st.drop_last();
        if rest.len() == 0 {
            Ok(seq![Tree::Reactants(seq![u]), Tree::Products(Seq::empty()), fresh_unit()])
        } else {
            match rest.last() {
                Tree::Reactants(l) => Ok(
                    rest.drop_last().push(Tree::Reactants(l.push(u))).push(
                        Tree::Products(Seq::empty()),
                    ).push(fresh_unit()),
                ),
                _ => Err(ParseError::InvalidYieldsLocation),
            }
        }
    }
}

/// An opening parenthesis starts a group with subscript 1.
pub open spec fn on_open(st: Seq<Tree>) -> Seq<Tree> {
    st.push(Tree::Group(1, Seq::empty()))
}

/// A closing parenthesis ends the group on top, gives it its subscript and
/// makes it the last child of the group or unit beneath.
pub open spec fn on_close(st: Seq<Tree>, sub: u16) -> Result<Seq<Tree>, ParseError> {
    if st.len() == 0 {
        Err(ParseError::StackUnderflow)
    } else {
        match st.last() {
            Tree::Group(_, ch) => {
                let g = Tree::Group(sub, ch);
                let rest = st.drop_last();
                if rest.len() == 0 {
                    Err(ParseError::StackUnderflow)
                } else {
                    match rest.last() {
                        Tree::Group(m, ch2) => Ok(rest.drop_last().push(Tree::Group(m, ch2.push(g)))),
                        Tree::FormulaUnit(c, ch2) => Ok(
                            rest.drop_last().push(Tree::FormulaUnit(c, ch2.push(g))),
                        ),
                        _ => Err(ParseError::InvalidParent),
                    }
                }
            },
            _ => Err(ParseError::InvalidParent),
        }
    }
}

/// One step of the parser on token `t` with lookahead `la`, from stack `st`
/// and parenthesis depth `d`: the new stack, the new depth, and whether the
/// lookahead number was taken.
pub open spec fn step(t: Token, la: Option<u16>, st: Seq<Tree>, d: nat) -> Result<(Seq<Tree>, nat, bool), ParseError> {
    match t {
        Token::Number(n) => match on_number(st, n) {
            Ok(s) => Ok((s, d, false)),
            Err(e) => Err(e),
        },
        Token::Element(sym) => match on_element(st, sym, subscript_of(la)) {
            Ok(s) => Ok((s, d, la is Some)),
            Err(e) => Err(e),
        },
        Token::Plus => match on_plus(st) {
            Ok(s) => Ok((s, d, false)),
            Err(e) => Err(e),
        },
        Token::Yields => match on_yields(st) {
            Ok(s) => Ok((s, d, false)),
            Err(e) => Err(e),
        },
        Token::Paren(ParenType::OPEN) => Ok((on_open(st), d + 1, false)),
        Token::Paren(ParenType::CLOSE) => if d == 0 {
            Err(ParseError::InvalidClosingParen)
        } else {
            match on_close(st, subscript_of(la)) {
                Ok(s) => Ok((s, (d - 1) as nat, la is Some)),
                Err(e) => Err(e),
            }
        },
    }
}

/// The tree that the stack holds once the tokens are spent: a lone formula
/// unit, or an equation from reactants, products and the last unit.
pub open spec fn finish(st: Seq<Tree>) -> Result<Tree, ParseError> {
    if st.len() == 1 && st[0] is FormulaUnit {
        Ok(st[0])
    } else if st.len() == 3 && st[0] is Reactants && st[1] is Products && st[2] is FormulaUnit {
        Ok(Tree::Equation(Box::new(st[0]), Box::new(Tree::Products(st[1]->Products_0.push(st[2])))))
    } else if st.len() == 0 {
        Err(ParseError::StackUnderflow)
    } else {
        Err(ParseError::UnexpectedStackValue)
    }
}

/// The parser run on `items` from stack `st` and depth `d`.
pub open spec fn run(items: Seq<Result<Token, LexError>>, st: Seq<Tree>, d: nat) -> Result<Tree, Error>
    decreases items.len(),
{
    if items.len() == 0 {
        match finish(st) {
            Ok(t) => Ok(t),
            Err(e) => Err(Error::Parse(e)),
        }
    } else {
        match items[0] {
            Err(e) => Err(Error::Lex(e)),
            Ok(t) => {
                let rest = items.drop_first();
                match step(t, lookahead(rest), st, d) {
                    Err(e) => Err(Error::Parse(e)),
                    Ok((st2, d2, took)) => if took && rest.len() > 0 {
                        run(rest.drop_first(), st2, d2)
                    } else {
                        run(rest, st2, d2)
                    },
                }
            },
        }
    }
}

/// The result of parsing the token sequence `items`.
pub open spec fn parse_items(items: Seq<Result<Token, LexError>>) -> Result<Tree, Error> {
    run(items, seq![fresh_unit()], 0)
}

/// The tree of a parse result.
pub open spec fn outcome(r: Result<Box<Node>, Error>) -> Result<Tree, Error> {
    match r {
        Ok(b) => Ok(b.tree()),
        Err(e) => Err(e),
    }
}

/// Whether a stack edit `r`, which left the stack as `after`, did what
/// `expected` says.
pub open spec fn edited(r: Result<(), ParseError>, after: Seq<Node>, expected: Result<Seq<Tree>, ParseError>) -> bool {
    match expected {
        Ok(s) => r is Ok && trees_of(after) == s,
        Err(e) => r == Err::<(), ParseError>(e),
    }
}

fn fresh_node() -> (r: Node)
    ensures
        r.tree() == fresh_unit(),
{
    let v: Vec<Node> = Vec::new();
    proof {
        lemma_trees_of_empty();
    }
    Node::FormulaUnit(1, v)
}

fn number_step(stack: &mut Vec<Node>, n: u16) -> (r: Result<(), ParseError>)
    ensures
        edited(r, final(stack)@, on_number(trees_of(old(stack)@), n)),
{
    proof {
        if old(stack)@.len() > 0 {
            lemma_trees_of_drop_last(old(stack)@);
        }
    }
    match stack.pop() {
        None => Err(ParseError::StackUnderflow),
        Some(Node::FormulaUnit(c, ch)) => {
            assert(trees_of(ch@).len() == ch@.len());
            if ch.len() == 0 {
                let ghost mid = stack@;
                stack.push(Node::FormulaUnit(n, ch));
                proof {
                    lemma_trees_of_push(mid, Node::FormulaUnit(n, ch));
                }
                Ok(())
            } else {
                Err(ParseError::InvalidParent)
            }
        },
        Some(_) => Err(ParseError::InvalidParent),
    }
}

fn element_step(stack: &mut Vec<Node>, sym: String, sub: u16) -> (r: Result<(), ParseError>)
    ensures
        edited(r, final(stack)@, on_element(trees_of(old(stack)@), sym@, sub)),
{
    proof {
        if old(stack)@.len() > 0 {
            lemma_trees_of_drop_last(old(stack)@);
        }
    }
    match stack.pop() {
        None => Err(ParseError::StackUnderflow),
        Some(Node::FormulaUnit(c, ch)) => {
            let mut ch = ch;
            let ghost ch0 = ch@;
            let e = Node::Element(sub, sym);
            ch.push(e);
            let ghost mid = stack@;
            proof {
                lemma_trees_of_push(ch0, e);
            }
            stack.push(Node::FormulaUnit(c, ch));
            proof {
                lemma_trees_of_push(mid, Node::FormulaUnit(c, ch));
            }
            Ok(())
        },
        Some(_) => Err(ParseError::InvalidParent),
    }
}

fn plus_step(stack: &mut Vec<Node>) -> (r: Result<(), ParseError>)
    ensures
        edited(r, final(stack)@, on_plus(trees_of(old(stack)@))),
{
    proof {
        if old(stack)@.len() > 0 {
            lemma_trees_of_drop_last(old(stack)@);
        }
        if old(stack)@.len() > 1 {
            lemma_trees_of_drop_last(old(stack)@.drop_last());
        }
    }
    let u = match stack.pop() {
        None => { return Err(ParseError::StackUnderflow); },
        Some(u) => u,
    };
    match &u {
        Node::FormulaUnit(..) => {},
        _ => { return Err(ParseError::InvalidPlus); },
    }
    let ghost ut = u.tree();
    match stack.pop() {
        None => {
            let side = vec![u];
            assert(trees_of(side@) =~= seq![ut]);
            stack.push(Node::Reactants(side));
            stack.push(fresh_node());
            assert(trees_of(stack@) =~= seq![Tree::Reactants(seq![ut]), fresh_unit()]);
            Ok(())
        },
        Some(Node::Reactants(l)) => {
            let mut l = l;
            let ghost l0 = l@;
            l.push(u);
            proof { lemma_trees_of_push(l0, u); }
            let ghost mid = stack@;
            let side = Node::Reactants(l);
            stack.push(side);
            let f = fresh_node();
            stack.push(f);
            proof {
                lemma_trees_of_push(mid, side);
                lemma_trees_of_push(mid.push(side), f);
            }
            Ok(())
        },
        Some(Node::Products(l)) => {
            let mut l = l;
            let ghost l0 = l@;
            l.push(u);
            proof { lemma_trees_of_push(l0, u); }
            let ghost mid = stack@;
            let side = Node::Products(l);
            stack.push(side);
            let f = fresh_node();
            stack.push(f);
            proof {
                lemma_trees_of_push(mid, side);
                lemma_trees_of_push(mid.push(side), f);
            }
            Ok(())
        },
        Some(_) => Err(ParseError::InvalidPlus),
    }
}

fn yields_step(stack: &mut Vec<Node>) -> (r: Result<(), ParseError>)
    ensures
        edited(r, final(stack)@, on_yields(trees_of(old(stack)@))),
{
    proof {
        if old(stack)@.len() > 0 {
            lemma_trees_of_drop_last(old(stack)@);
        }
        if old(stack)@.len() > 1 {
            lemma_trees_of_drop_last(old(stack)@.drop_last());
        }
    }
    let u = match stack.pop() {
        None => { return Err(ParseError::StackUnderflow); },
        Some(u) => u,
    };
    match &u {
        Node::FormulaUnit(..) => {},
        _ => { return Err(ParseError::InvalidYieldsLocation); },
    }
    let ghost ut = u.tree();
    let side = match stack.pop() {
        None => {
            let side = vec![u];
            assert(trees_of(side@) =~= seq![ut]);
            let n = Node::Reactants(side);
            assert(n.tree() == Tree::Reactants(seq![ut]));
            n
        },
        Some(Node::Reactants(l)) => {
            let mut l = l;
            let ghost l0 = l@;
            l.push(u);
            proof { lemma_trees_of_push(l0, u); }
            Node::Reactants(l)
        },
        Some(_) => { return Err(ParseError::InvalidYieldsLocation); },
    };
    let ghost mid = stack@;
    assert(old(stack)@.len() == 1 ==> side.tree() == Tree::Reactants(seq![ut]));
    let p: Vec<Node> = Vec::new();
    let products = Node::Products(p);
    proof { lemma_trees_of_empty(); }
    assert(products.tree() == Tree::Products(Seq::empty()));
    let f = fresh_node();
    stack.push(side);
    stack.push(products);
    stack.push(f);
    proof {
        lemma_trees_of_push(mid, side);
        lemma_trees_of_push(mid.push(side), products);
        lemma_trees_of_push(mid.push(side).push(products), f);
        if mid.len() == 0 {
            assert(trees_of(mid) =~= Seq::<Tree>::empty());
        }
        if old(stack)@.len() == 1 {
            assert(trees_of(stack@) =~= seq![Tree::Reactants(seq![ut]), Tree::Products(Seq::empty()), fresh_unit()]);
        }
    }
    Ok(())
}

fn open_step(stack: &mut Vec<Node>)
    ensures
        trees_of(final(stack)@) == on_open(trees_of(old(stack)@)),
{
    let v: Vec<Node> = Vec::new();
    let g = Node::Group(1, v);
    proof {
        lemma_trees_of_empty();
        lemma_trees_of_push(old(stack)@, g);
    }
    stack.push(g);
}

fn close_step(stack: &mut Vec<Node>, sub: u16) -> (r: Result<(), ParseError>)
    ensures
        edited(r, final(stack)@, on_close(trees_of(old(stack)@), sub)),
{
    proof {
        if old(stack)@.len() > 0 {
            lemma_trees_of_drop_last(old(stack)@);
        }
        if old(stack)@.len() > 1 {
            lemma_trees_of_drop_last(old(stack)@.drop_last());
        }
    }
    let g = match stack.pop() {
        None => { return Err(ParseError::StackUnderflow); },
        Some(Node::Group(_, ch)) => Node::Group(sub, ch),
        Some(_) => { return Err(ParseError::InvalidParent); },
    };
    let parent = match stack.pop() {
        None => { return Err(ParseError::StackUnderflow); },
        Some(Node::Group(m, ch2)) => {
            let mut ch2 = ch2;
            let ghost c0 = ch2@;
            ch2.push(g);
            proof { lemma_trees_of_push(c0, g); }
            Node::Group(m, ch2)
        },
        Some(Node::FormulaUnit(c, ch2)) => {
            let mut ch2 = ch2;
            let ghost c0 = ch2@;
            ch2.push(g);
            proof { lemma_trees_of_push(c0, g); }
            Node::FormulaUnit(c, ch2)
        },
        Some(_) => { return Err(ParseError::InvalidParent); },
    };
    let ghost mid = stack@;
    stack.push(parent);
    proof { lemma_trees_of_push(mid, parent); }
    Ok(())
}

fn finish_stack(stack: Vec<Node>) -> (r: Result<Node, ParseError>)
    ensures
        match finish(trees_of(stack@)) {
            Ok(t) => r is Ok && r->Ok_0.tree() == t,
            Err(e) => r == Err::<Node, ParseError>(e),
        },
{
    let mut stack = stack;
    let ghost s0 = stack@;
    assert(trees_of(s0).len() == s0.len());
    if stack.len() == 1 {
        let top = stack.pop().unwrap();
        assert(s0[0] == top);
        match top {
            Node::FormulaUnit(..) => Ok(top),
            _ => Err(ParseError::UnexpectedStackValue),
        }
    } else if stack.len() == 3 {
        let u = stack.pop().unwrap();
        let p = stack.pop().unwrap();
        let re = stack.pop().unwrap();
        assert(s0[0] == re && s0[1] == p && s0[2] == u);
        match (re, p, u) {
            (Node::Reactants(rl), Node::Products(pl), Node::FormulaUnit(c, ch)) => {
                let mut pl = pl;
                let ghost p0 = pl@;
                let unit = Node::FormulaUnit(c, ch);
                pl.push(unit);
                proof { lemma_trees_of_push(p0, unit); }
                let rn = Node::Reactants(rl);
                let pn = Node::Products(pl);
                let ghost rt = rn.tree();
                let ghost pt = pn.tree();
                assert(rt == trees_of(s0)[0]);
                assert(pt == Tree::Products(trees_of(s0)[1]->Products_0.push(trees_of(s0)[2])));
                let eq = Node::Equation(Box::new(rn), Box::new(pn));
                assert(eq.tree() == Tree::Equation(Box::new(rt), Box::new(pt)));
                Ok(eq)
            },
            _ => Err(ParseError::UnexpectedStackValue),
        }
    } else if stack.len() == 0 {
        Err(ParseError::StackUnderflow)
    } else {
        Err(ParseError::UnexpectedStackValue)
    }
}

/// Applies one token with lookahead `la` to the stack and depth, as `step`
/// says; the result tells whether the lookahead number was taken.
fn apply_token(stack: &mut Vec<Node>, depth: &mut usize, tok: Tokens, la: Option<u16>) -> (r: Result<bool, ParseError>)
    requires
        *old(depth) <= old(stack)@.len(),
    ensures
        match step(tok.token(), la, trees_of(old(stack)@), *old(depth) as nat) {
            Ok((s, d, took)) => r == Ok::<bool, ParseError>(took) && trees_of(final(stack)@) == s
                && *final(depth) == d && *final(depth) <= final(stack)@.len(),
            Err(e) => r == Err::<bool, ParseError>(e),
        },
{
    let ghost len0 = old(stack)@.len();
    assert(trees_of(old(stack)@).len() == len0);
    let sub: u16 = match la {
        Some(n) => n,
        None => 1,
    };
    match tok {
        Tokens::Number { data, .. } => {
            match number_step(stack, data) {
                Ok(()) => {
                    assert(trees_of(stack@).len() == stack@.len());
                    Ok(false)
                },
                Err(e) => Err(e),
            }
        },
        Tokens::Element { data, .. } => {
            match element_step(stack, data, sub) {
                Ok(()) => {
                    assert(trees_of(stack@).len() == stack@.len());
                    Ok(la.is_some())
                },
                Err(e) => Err(e),
            }
        },
        Tokens::Plus { .. } => {
            match plus_step(stack) {
                Ok(()) => {
                    assert(trees_of(stack@).len() == stack@.len());
                    Ok(false)
                },
                Err(e) => Err(e),
            }
        },
        Tokens::Yields { .. } => {
            match yields_step(stack) {
                Ok(()) => {
                    assert(trees_of(stack@).len() == stack@.len());
                    Ok(false)
                },
                Err(e) => Err(e),
            }
        },
        Tokens::Paren { data: ParenType::OPEN, .. } => {
            open_step(stack);
            assert(trees_of(stack@).len() == stack@.len());
            // the depth stays below the stack's length, which fits in a usize
            let len = stack.len();
            assert(*depth < len);
            *depth = *depth + 1;
            Ok(false)
        },
        Tokens::Paren { data: ParenType::CLOSE, .. } => {
            if *depth == 0 {
                return Err(ParseError::InvalidClosingParen);
            }
            match close_step(stack, sub) {
                Ok(()) => {
                    assert(trees_of(stack@).len() == stack@.len());
                    *depth = *depth - 1;
                    Ok(la.is_some())
                },
                Err(e) => Err(e),
            }
        },
    }
}

/// Parses the tokens of `stream` into one tree, with one token of lookahead.
#[verifier::loop_isolation(false)]
pub fn parse<S: TokenStream>(stream: S) -> (r: Result<Box<Node>, Error>)
    ensures
        outcome(r) == parse_items(stream.items()),
{
    let mut stream = stream;
    let ghost all = stream.items();
    let mut stack: Vec<Node> = Vec::new();
    let f = fresh_node();
    stack.push(f);
    proof {
        lemma_trees_of_empty();
        lemma_trees_of_push(Seq::empty(), f);
        assert(Seq::<Node>::empty().push(f) =~= stack@);
    }
    let mut depth: usize = 0;
    loop
        invariant
            run(stream.items(), trees_of(stack@), depth as nat) == parse_items(all),
            depth <= stack@.len(),
        decreases stream.items().len(),
    {
        let ghost items = stream.items();
        match stream.next_item() {
            None => {
                return match finish_stack(stack) {
                    Ok(n) => Ok(Box::new(n)),
                    Err(e) => Err(Error::Parse(e)),
                };
            },
            Some(Err(e)) => {
                return Err(Error::Lex(e));
            },
            Some(Ok(tok)) => {
                let la = stream.peek_number();
                match apply_token(&mut stack, &mut depth, tok, la) {
                    Ok(took) => {
                        if took {
                            let _ = stream.next_item();
                        }
                    },
                    Err(e) => {
                        return Err(Error::Parse(e));
                    },
                }
            },
        }
    }
}

} // verus!
