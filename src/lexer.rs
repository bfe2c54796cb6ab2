//! The lexer: reads tokens from text, one at a time.
use vstd::prelude::*;

use crate::parser::{TokenStream, item_of, lookahead};
use crate::token_types::{LexError, ParenType, Token, TokenMetadata, Tokens};

verus! {

pub open spec fn is_digit(c: char) -> bool {
    '0' <= c && c <= '9'
}

pub open spec fn is_upper(c: char) -> bool {
    'A' <= c && c <= 'Z'
}

pub open spec fn is_lower(c: char) -> bool {
    'a' <= c && c <= 'z'
}

pub open spec fn digit_value(c: char) -> nat {
    ((c as u32) - ('0' as u32)) as nat
}

/// The value of a run of decimal digits, most significant first.
pub open spec fn digits_value(d: Seq<char>) -> nat
    decreases d.len(),
{
    if d.len() == 0 {
        0
    } else {
        digits_value(d.drop_last()) * 10 + digit_value(d.last())
    }
}

/// The index just past the run of digits that starts at `p`.
pub open spec fn digits_end(s: Seq<char>, p: int) -> int
    decreases s.len() - p,
{
    if 0 <= p < s.len() && is_digit(s[p]) {
        digits_end(s, p + 1)
    } else {
        p
    }
}

/// The next item read from `s` at index `p`, and the index after it; `None`
/// when the input is spent (a `-` that ends the input is dropped).
pub open spec fn lex_step(s: Seq<char>, p: int) -> Option<(Result<Token, LexError>, int)> {
    if !(0 <= p < s.len()) {
        None
    } else {
        let c = s[p];
        if is_digit(c) {
            let e = digits_end(s, p);
            let v = digits_value(s.subrange(p, e));
            if v <= 65535 {
                Some((Ok(Token::Number(v as u16)), e))
            } else {
                Some((Err(LexError::NumberOverflow), e))
            }
        } else if c == '(' {
            Some((Ok(Token::Paren(ParenType::OPEN)), p + 1))
        } else if c == ')' {
            Some((Ok(Token::Paren(ParenType::CLOSE)), p + 1))
        } else if c == '+' {
            Some((Ok(Token::Plus), p + 1))
        } else if c == '-' {
            if p + 1 == s.len() {
                None
            } else if s[p + 1] == '>' {
                Some((Ok(Token::Yields), p + 2))
            } else {
                Some((Err(LexError::IncompleteYields), p + 1))
            }
        } else if is_upper(c) {
            if p + 1 < s.len() && is_lower(s[p + 1]) {
                if p + 2 < s.len() && is_lower(s[p + 2]) {
                    Some((Err(LexError::ThreeLetterElement), p + 2))
                } else {
                    Some((Ok(Token::Element(s.subrange(p, p + 2))), p + 2))
                }
            } else {
                Some((Ok(Token::Element(s.subrange(p, p + 1))), p + 1))
            }
        } else {
            Some((Err(LexError::InvalidCharacter(c)), p + 1))
        }
    }
}

pub proof fn lemma_digits_end(s: Seq<char>, p: int)
    requires
        0 <= p <= s.len(),
    ensures
        p <= digits_end(s, p) <= s.len(),
        forall|k: int| p <= k < digits_end(s, p) ==> is_digit(#[trigger] s[k]),
        digits_end(s, p) == s.len() || !is_digit(s[digits_end(s, p)]),
    decreases s.len() - p,
{
    if p < s.len() && is_digit(s[p]) {
        lemma_digits_end(s, p + 1);
    }
}

pub proof fn lemma_digits_end_at(s: Seq<char>, p: int, j: int)
    requires
        0 <= p <= j <= s.len(),
        forall|k: int| p <= k < j ==> is_digit(#[trigger] s[k]),
        j == s.len() || !is_digit(s[j]),
    ensures
        digits_end(s, p) == j,
    decreases j - p,
{
    if p < j {
        lemma_digits_end_at(s, p + 1, j);
    }
}

/// Reading an item moves forward and stays within the input.
pub proof fn lemma_lex_step_advances(s: Seq<char>, p: int)
    ensures
        lex_step(s, p) matches Some((_, q)) ==> p < q <= s.len(),
{
    if 0 <= p < s.len() && is_digit(s[p]) {
        lemma_digits_end(s, p);
    }
}

/// All items read from `s` from index `p` on; lexing stops after an error.
pub open spec fn lex_items(s: Seq<char>, p: int) -> Seq<Result<Token, LexError>>
    decreases s.len() - p,
    via lex_items_decreases
{
    match lex_step(s, p) {
        None => Seq::empty(),
        Some((Err(e), _)) => seq![Err(e)],
        Some((Ok(t), q)) => seq![Ok(t)] + lex_items(s, q),
    }
}

#[via_fn]
proof fn lex_items_decreases(s: Seq<char>, p: int) {
    lemma_lex_step_advances(s, p);
}

/// A token stream that reads a string lazily, one token per call, looking
/// at most one character past the token.
pub struct LazyTokenStream {
    text: String,
    chars: Vec<char>,
    pos: usize,
}

fn is_digit_char(c: char) -> (r: bool)
    ensures
        r == is_digit(c),
{
    '0' <= c && c <= '9'
}

fn is_lower_char(c: char) -> (r: bool)
    ensures
        r == is_lower(c),
{
    'a' <= c && c <= 'z'
}

impl LazyTokenStream {
    #[verifier::type_invariant]
    spec fn inv(&self) -> bool {
        &&& self.chars@ == self.text@
        &&& self.pos <= self.chars@.len()
    }

    /// The characters of the input.
    pub closed spec fn input(&self) -> Seq<char> {
        self.chars@
    }

    /// The index of the next character to read.
    pub closed spec fn position(&self) -> int {
        self.pos as int
    }

    /// A stream over the characters of `string`, at its start.
    pub fn new(string: &String) -> (r: LazyTokenStream)
        ensures
            r.input() == string@,
            r.position() == 0,
    {
        let text = string.clone();
        let n = text.as_str().unicode_len();
        let mut chars: Vec<char> = Vec::new();
        let mut i: usize = 0;
        while i < n
            invariant
                n == text@.len(),
                i <= n,
                chars@ == text@.subrange(0, i as int),
            decreases n - i,
        {
            let c = text.as_str().get_char(i);
            chars.push(c);
            i = i + 1;
            assert(chars@ =~= text@.subrange(0, i as int));
        }
        assert(chars@ =~= text@);
        LazyTokenStream { text, chars, pos: 0 }
    }

    fn slice(&self, a: usize, b: usize) -> (r: String)
        requires
            a <= b <= self.input().len(),
        ensures
            r@ == self.input().subrange(a as int, b as int),
    {
        proof {
            use_type_invariant(self);
        }
        self.text.as_str().substring_char(a, b).to_owned()
    }

    fn metadata(&self, a: usize, b: usize) -> (r: TokenMetadata)
        requires
            a <= b <= self.input().len(),
        ensures
            r.raw@ == self.input().subrange(a as int, b as int),
            r.location == a,
    {
        TokenMetadata { raw: self.slice(a, b), location: a }
    }

    /// Scans the run of digits that starts at `start`: where it ends, and its
    /// value where that fits in 16 bits.
    fn scan_number(&self, start: usize) -> (r: (usize, Option<u16>))
        requires
            start < self.input().len(),
            is_digit(self.input()[start as int]),
        ensures
            r.0 == digits_end(self.input(), start as int),
            ({
                let v = digits_value(self.input().subrange(start as int, r.0 as int));
                if v <= 65535 {
                    r.1 == Some(v as u16)
                } else {
                    r.1 is None
                }
            }),
    {
        let ghost s = self.chars@;
        let n = self.chars.len();
        let mut j: usize = start;
        let mut value: u32 = 0;
        let mut over = false;
        while j < n && is_digit_char(self.chars[j])
            invariant
                s == self.chars@,
                n == s.len(),
                start < n,
                start <= j <= n,
                forall|k: int| start <= k < j ==> is_digit(#[trigger] s[k]),
                !over ==> value <= 65535 && value as nat == digits_value(s.subrange(start as int, j as int)),
                over ==> digits_value(s.subrange(start as int, j as int)) > 65535,
            decreases n - j,
        {
            let d = (self.chars[j] as u32) - ('0' as u32);
            proof {
                let sub = s.subrange(start as int, j as int + 1);
                assert(sub.drop_last() =~= s.subrange(start as int, j as int));
                assert(sub.last() == s[j as int]);
            }
            if !over {
                let v = value * 10 + d;
                if v > 65535 {
                    over = true;
                } else {
                    value = v;
                }
            }
            j = j + 1;
        }
        proof {
            lemma_digits_end_at(s, start as int, j as int);
        }
        if over {
            (j, None)
        } else {
            (j, Some(value as u16))
        }
    }

    /// Reads the next token, as `lex_step` says, with the characters it was
    /// read from and where they start. After an error or at the end of the
    /// input, nothing more is read.
    pub fn next(&mut self) -> (r: Option<Result<Tokens, LexError>>)
        ensures
            final(self).input() == old(self).input(),
            match lex_step(old(self).input(), old(self).position()) {
                None => r is None && final(self).items() == Seq::<Result<Token, LexError>>::empty(),
                Some((Err(e), _)) => r == Some(Err::<Tokens, LexError>(e))
                    && final(self).items() == Seq::<Result<Token, LexError>>::empty(),
                Some((Ok(t), q)) => r is Some && r->Some_0 is Ok && r->Some_0->Ok_0.token() == t
                    && r->Some_0->Ok_0.metadata().location == old(self).position()
                    && r->Some_0->Ok_0.metadata().raw@ == old(self).input().subrange(old(self).position(), q)
                    && final(self).position() == q,
            },
    {
        proof {
            use_type_invariant(&*self);
        }
        let ghost s = self.chars@;
        let n = self.chars.len();
        let start = self.pos;
        if start >= n {
            return None;
        }
        let c = self.chars[start];
        if is_digit_char(c) {
            let (j, value) = self.scan_number(start);
            proof {
                lemma_digits_end(s, start as int);
            }
            match value {
                Some(v) => {
                    let meta = self.metadata(start, j);
                    self.pos = j;
                    return Some(Ok(Tokens::Number { data: v, meta }));
                },
                None => {
                    self.pos = n;
                    proof {
                        assert(lex_items(s, n as int) =~= Seq::<Result<Token, LexError>>::empty());
                    }
                    return Some(Err(LexError::NumberOverflow));
                },
            }
        }
        if c == '(' || c == ')' || c == '+' {
            let meta = self.metadata(start, start + 1);
            self.pos = start + 1;
            if c == '(' {
                return Some(Ok(Tokens::Paren { data: ParenType::OPEN, meta }));
            } else if c == ')' {
                return Some(Ok(Tokens::Paren { data: ParenType::CLOSE, meta }));
            } else {
                return Some(Ok(Tokens::Plus { meta }));
            }
        }
        if c == '-' {
            if start + 1 == n {
                self.pos = n;
                return None;
            } else if self.chars[start + 1] == '>' {
                let meta = self.metadata(start, start + 2);
                self.pos = start + 2;
                return Some(Ok(Tokens::Yields { meta }));
            } else {
                self.pos = n;
                return Some(Err(LexError::IncompleteYields));
            }
        }
        if 'A' <= c && c <= 'Z' {
            let mut end = start + 1;
            if end < n && is_lower_char(self.chars[end]) {
                if end + 1 < n && is_lower_char(self.chars[end + 1]) {
                    self.pos = n;
                    return Some(Err(LexError::ThreeLetterElement));
                }
                end = end + 1;
            }
            let data = self.slice(start, end);
            let meta = self.metadata(start, end);
            self.pos = end;
            return Some(Ok(Tokens::Element { data, meta }));
        }
        self.pos = n;
        Some(Err(LexError::InvalidCharacter(c)))
    }

    /// The number that the next token is, if it is one; reads nothing.
    pub fn peek(&self) -> (r: Option<u16>)
        ensures
            r == lookahead(self.items()),
    {
        proof {
            use_type_invariant(self);
        }
        let start = self.pos;
        let n = self.chars.len();
        if start >= n || !is_digit_char(self.chars[start]) {
            proof {
                lemma_lex_step_advances(self.chars@, start as int);
            }
            return None;
        }
        proof {
            lemma_lex_step_advances(self.chars@, start as int);
        }
        let (_, value) = self.scan_number(start);
        value
    }
}

impl TokenStream for LazyTokenStream {
    open spec fn items(&self) -> Seq<Result<Token, LexError>> {
        lex_items(self.input(), self.position())
    }

    fn next_item(&mut self) -> (r: Option<Result<Tokens, LexError>>) {
        proof {
            lemma_lex_step_advances(self.input(), self.position());
        }
        let r = self.next();
        r
    }

    fn peek_number(&self) -> (r: Option<u16>) {
        self.peek()
    }
}

/// Reads the whole stream: every token, or the first error.
#[verifier::loop_isolation(false)]
pub fn collect_tokens(stream: LazyTokenStream) -> (r: Result<Vec<Tokens>, LexError>)
    ensures
        match r {
            Ok(v) => v@.map_values(|t: Tokens| Ok::<Token, LexError>(t.token())) == stream.items(),
            Err(e) => exists|i: int|
                0 <= i < stream.items().len() && stream.items()[i] == Err::<Token, LexError>(e)
                && forall|j: int| 0 <= j < i ==> (#[trigger] stream.items()[j]) is Ok,
        },
{
    let mut stream = stream;
    let ghost all = stream.items();
    let mut v: Vec<Tokens> = Vec::new();
    loop
        invariant
            all == v@.map_values(|t: Tokens| Ok::<Token, LexError>(t.token())) + stream.items(),
        decreases stream.items().len(),
    {
        let ghost done = v@.map_values(|t: Tokens| Ok::<Token, LexError>(t.token()));
        match stream.next_item() {
            None => {
                assert(all =~= v@.map_values(|t: Tokens| Ok::<Token, LexError>(t.token())));
                return Ok(v);
            },
            Some(Err(e)) => {
                assert(all[done.len() as int] == Err::<Token, LexError>(e));
                assert forall|j: int| 0 <= j < done.len() implies (#[trigger] all[j]) is Ok by {
                    assert(all[j] == done[j]);
                }
                return Err(e);
            },
            Some(Ok(t)) => {
                let ghost tv = t.token();
                v.push(t);
                assert(v@.map_values(|t: Tokens| Ok::<Token, LexError>(t.token())) =~= done.push(Ok(tv)));
                assert(all =~= v@.map_values(|t: Tokens| Ok::<Token, LexError>(t.token())) + stream.items());
            },
        }
    }
}

} // verus!
