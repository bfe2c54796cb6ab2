//! Tokens, their metadata, and lexical errors.
use vstd::prelude::*;

verus! {

/// A parenthesis: `(` is `OPEN` and `)` is `CLOSE`.
#[derive(Debug, Clone, Copy, PartialEq, Eq, Structural)]
pub enum ParenType {
    OPEN,
    CLOSE,
}

/// Where a token was found: the characters it was read from and the
/// index of its first character.
#[derive(Debug)]
pub struct TokenMetadata {
    pub raw: String,
    pub location: usize,
}

impl TokenMetadata {
    pub fn new(raw: &str, location: usize) -> (r: TokenMetadata)
        ensures
            r.raw@ == raw@,
            r.location == location,
    {
        TokenMetadata { raw: raw.to_owned(), location }
    }
}

/// A token with its metadata. Two tokens are equal when they carry the
/// same kind and data; the metadata is ignored.
#[allow(inconsistent_fields)]
#[derive(Debug)]
pub enum Tokens {
    /// An element symbol such as `Fe`.
    Element { data: String, meta: TokenMetadata },
    /// A number such as `13`.
    Number { data: u16, meta: TokenMetadata },
    /// A parenthesis.
    Paren { data: ParenType, meta: TokenMetadata },
    /// The plus sign `+`.
    Plus { meta: TokenMetadata },
    /// The yields sign `->`.
    Yields { meta: TokenMetadata },
}

/// The meaning of a token, without its metadata.
pub enum Token {
    Element(Seq<char>),
    Number(u16),
    Paren(ParenType),
    Plus,
    Yields,
}

/// The ways in which reading a token can fail.
#[derive(Debug, Clone, Copy, PartialEq, Eq, Structural)]
pub enum LexError {
    /// A character that starts no token.
    InvalidCharacter(char),
    /// A run of digits whose value does not fit in 16 bits.
    NumberOverflow,
    /// A `-` followed by something other than `>`.
    IncompleteYields,
    /// An uppercase letter followed by three lowercase letters or more.
    ThreeLetterElement,
}

impl Tokens {
    pub open spec fn token(&self) -> Token {
        match self {
            Tokens::Element { data, .. } => Token::Element(data@),
            Tokens::Number { data, .. } => Token::Number(*data),
            Tokens::Paren { data, .. } => Token::Paren(*data),
            Tokens::Plus { .. } => Token::Plus,
            Tokens::Yields { .. } => Token::Yields,
        }
    }

    pub open spec fn metadata(&self) -> &TokenMetadata {
        match self {
            Tokens::Element { meta, .. } => meta,
            Tokens::Number { meta, .. } => meta,
            Tokens::Paren { meta, .. } => meta,
            Tokens::Plus { meta } => meta,
            Tokens::Yields { meta } => meta,
        }
    }

    /// A copy of the token's metadata.
    pub fn meta(&self) -> (r: TokenMetadata)
        ensures
            r.raw@ == self.metadata().raw@,
            r.location == self.metadata().location,
    {
        let m = match self {
            Tokens::Element { meta, .. } => meta,
            Tokens::Number { meta, .. } => meta,
            Tokens::Paren { meta, .. } => meta,
            Tokens::Plus { meta } => meta,
            Tokens::Yields { meta } => meta,
        };
        TokenMetadata { raw: m.raw.clone(), location: m.location }
    }
}

impl PartialEq for Tokens {
    fn eq(&self, other: &Tokens) -> (r: bool)
        ensures
            r == (self.token() == other.token()),
    {
        match (self, other) {
            (Tokens::Element { data: a, .. }, Tokens::Element { data: b, .. }) => *a == *b,
            (Tokens::Number { data: a, .. }, Tokens::Number { data: b, .. }) => *a == *b,
            (Tokens::Paren { data: a, .. }, Tokens::Paren { data: b, .. }) => *a == *b,
            (Tokens::Plus { .. }, Tokens::Plus { .. }) => true,
            (Tokens::Yields { .. }, Tokens::Yields { .. }) => true,
            _ => false,
        }
    }
}

impl vstd::std_specs::cmp::PartialEqSpecImpl for Tokens {
    open spec fn obeys_eq_spec() -> bool {
        true
    }

    open spec fn eq_spec(&self, other: &Tokens) -> bool {
        self.token() == other.token()
    }
}

} // verus!
