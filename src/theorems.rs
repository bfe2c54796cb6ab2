//! Facts about the parser: the shape of every tree it returns, and the
//! inputs on which it fails.
use vstd::prelude::*;

use crate::ast_types::Tree;
use crate::parser::{
    fresh_unit, finish, lookahead, subscript_of, parse_items, run, step, Error, ParseError,
};
use crate::lexer::{digits_end, is_digit, is_lower, is_upper, lex_items, lex_step, lemma_lex_step_advances, lemma_digits_end};
use crate::parse_text;
use crate::token_types::{LexError, ParenType, Token};

verus! {

/// A group as the parser builds it: its children are groups too.
pub open spec fn group_tree(t: Tree) -> bool
    decreases t,
{
    match t {
        Tree::Group(_, ch) => forall|i: int| 0 <= i < ch.len() ==> group_tree(#[trigger] ch[i]),
        _ => false,
    }
}

/// A child of a formula unit: an element or a group.
pub open spec fn unit_child(t: Tree) -> bool {
    t is Element || group_tree(t)
}

/// A formula unit whose children are elements and groups.
pub open spec fn unit_tree(t: Tree) -> bool {
    match t {
        Tree::FormulaUnit(_, ch) => forall|i: int| 0 <= i < ch.len() ==> unit_child(#[trigger] ch[i]),
        _ => false,
    }
}

/// A list of formula units.
pub open spec fn units(l: Seq<Tree>) -> bool {
    forall|i: int| 0 <= i < l.len() ==> unit_tree(#[trigger] l[i])
}

/// A side of an equation: `Reactants` or `Products` with one unit or more.
pub open spec fn side_tree(t: Tree, reactants: bool) -> bool {
    match t {
        Tree::Reactants(l) => reactants && l.len() > 0 && units(l),
        Tree::Products(l) => !reactants && l.len() > 0 && units(l),
        _ => false,
    }
}

/// The trees that a parse can return: a bare formula unit, or an equation of
/// one reactants side and one products side, each with one unit or more.
pub open spec fn result_tree(t: Tree) -> bool {
    unit_tree(t) || match t {
        Tree::Equation(r, p) => side_tree(*r, true) && side_tree(*p, false),
        _ => false,
    }
}

/// The parser's stack with `d` open groups: at most a reactants side and a
/// products side, then the unit being filled, then the open groups.
pub open spec fn wf_stack(st: Seq<Tree>, d: nat) -> bool {
    let b = st.len() - d - 1;
    &&& st.len() >= d + 1
    &&& b <= 2
    &&& unit_tree(st[b])
    &&& forall|i: int| b < i < st.len() ==> group_tree(#[trigger] st[i])
    &&& b >= 1 ==> side_tree(st[0], true)
    &&& b == 2 ==> (st[1] matches Tree::Products(l) && units(l))
}

pub proof fn lemma_step_wf(t: Token, la: Option<u16>, st: Seq<Tree>, d: nat)
    requires
        wf_stack(st, d),
    ensures
        step(t, la, st, d) matches Ok((s2, d2, _)) ==> wf_stack(s2, d2),
{
    let b = st.len() - d - 1;
    match step(t, la, st, d) {
        Ok((s2, d2, _)) => {
            match t {
                Token::Number(n) => {
                    assert(d == 0);
                    assert(s2.len() == st.len());
                    assert(forall|i: int| 0 <= i < b ==> s2[i] == st[i]);
                },
                Token::Element(sym) => {
                    assert(d == 0);
                    assert(forall|i: int| 0 <= i < b ==> s2[i] == st[i]);
                    if let Tree::FormulaUnit(c, ch) = st[b] {
                        let ch2 = s2[b]->FormulaUnit_1;
                        assert(forall|i: int| 0 <= i < ch.len() ==> ch2[i] == ch[i]);
                        assert(unit_child(ch2[ch.len() as int]));
                    }
                },
                Token::Plus => {
                    assert(d == 0);
                    if b == 0 {
                        assert(units(seq![st[0]]));
                    } else {
                        match st[b - 1] {
                            Tree::Reactants(l) => { assert(units(l.push(st[b]))); },
                            Tree::Products(l) => { assert(units(l.push(st[b]))); },
                            _ => {},
                        }
                    }
                },
                Token::Yields => {
                    assert(d == 0);
                    if b == 0 {
                        assert(units(seq![st[0]]));
                    } else {
                        let l = st[b - 1]->Reactants_0;
                        assert(units(l.push(st[b])));
                    }
                    assert(units(Seq::<Tree>::empty()));
                },
                Token::Paren(ParenType::OPEN) => {
                    assert(group_tree(Tree::Group(1, Seq::empty())));
                    assert(forall|i: int| 0 <= i < st.len() ==> s2[i] == st[i]);
                },
                Token::Paren(ParenType::CLOSE) => {
                    let top = st.last();
                    let g = Tree::Group(subscript_of(la), top->Group_1);
                    assert(group_tree(top));
                    assert(group_tree(g));
                    assert(forall|i: int| 0 <= i < st.len() - 2 ==> s2[i] == st[i]);
                    let p = st[st.len() - 2];
                    if d >= 2 {
                        let pc = p->Group_1;
                        assert(group_tree(p));
                        assert(forall|i: int| 0 <= i < pc.len() ==> group_tree(#[trigger] pc[i]));
                        assert(group_tree(s2.last()));
                    } else {
                        let pc = p->FormulaUnit_1;
                        assert(unit_tree(p));
                        assert(forall|i: int| 0 <= i < pc.len() ==> unit_child(#[trigger] pc[i]));
                        assert(unit_tree(s2.last()));
                    }
                },
            }
        },
        Err(_) => {},
    }
}


pub proof fn lemma_finish_wf(st: Seq<Tree>, d: nat)
    requires
        wf_stack(st, d),
    ensures
        finish(st) matches Ok(t) ==> result_tree(t) && d == 0,
{
    if st.len() == 3 && st[0] is Reactants && st[1] is Products && st[2] is FormulaUnit {
        if d > 0 {
            assert(group_tree(st[2]));
        }
        let l = st[1]->Products_0;
        assert(units(l.push(st[2])));
    } else if st.len() == 1 && st[0] is FormulaUnit {
    }
}

pub proof fn lemma_run_wf(items: Seq<Result<Token, LexError>>, st: Seq<Tree>, d: nat)
    requires
        wf_stack(st, d),
    ensures
        run(items, st, d) matches Ok(t) ==> result_tree(t),
    decreases items.len(),
{
    if items.len() == 0 {
        lemma_finish_wf(st, d);
    } else if let Ok(t) = items[0] {
        let rest = items.drop_first();
        lemma_step_wf(t, lookahead(rest), st, d);
        if let Ok((s2, d2, took)) = step(t, lookahead(rest), st, d) {
            if took && rest.len() > 0 {
                lemma_run_wf(rest.drop_first(), s2, d2);
            } else {
                lemma_run_wf(rest, s2, d2);
            }
        }
    }
}

pub proof fn lemma_initial_wf()
    ensures
        wf_stack(seq![fresh_unit()], 0),
{
    assert(unit_tree(fresh_unit()));
}

/// Every tree that a parse returns is a bare formula unit of elements and
/// groups, or an equation with one reactants side and one products side,
/// each holding one formula unit or more.
pub proof fn parse_result_is_well_formed(items: Seq<Result<Token, LexError>>)
    ensures
        parse_items(items) matches Ok(t) ==> result_tree(t),
{
    lemma_initial_wf();
    lemma_run_wf(items, seq![fresh_unit()], 0);
}

/// Whether a token sequence holds no `+` and no `->`.
pub open spec fn no_separators(items: Seq<Result<Token, LexError>>) -> bool {
    forall|i: int| 0 <= i < items.len() ==> !(#[trigger] items[i] matches Ok(Token::Plus)) && !(
    items[i] matches Ok(Token::Yields))
}

pub proof fn lemma_run_unit(items: Seq<Result<Token, LexError>>, st: Seq<Tree>, d: nat)
    requires
        wf_stack(st, d),
        st.len() == d + 1,
        no_separators(items),
    ensures
        run(items, st, d) matches Ok(t) ==> t is FormulaUnit,
    decreases items.len(),
{
    if items.len() == 0 {
    } else if let Ok(t) = items[0] {
        let rest = items.drop_first();
        assert(!(t is Plus) && !(t is Yields));
        lemma_step_wf(t, lookahead(rest), st, d);
        if let Ok((s2, d2, took)) = step(t, lookahead(rest), st, d) {
            assert(s2.len() == d2 + 1);
            if took && rest.len() > 0 {
                assert(no_separators(rest.drop_first())) by {
                    assert forall|i: int| 0 <= i < rest.drop_first().len() implies !(
                    #[trigger] rest.drop_first()[i] matches Ok(Token::Plus)) && !(
                    rest.drop_first()[i] matches Ok(Token::Yields)) by {
                        assert(rest.drop_first()[i] == items[i + 2]);
                    }
                }
                lemma_run_unit(rest.drop_first(), s2, d2);
            } else {
                assert(no_separators(rest)) by {
                    assert forall|i: int| 0 <= i < rest.len() implies !(
                    #[trigger] rest[i] matches Ok(Token::Plus)) && !(rest[i] matches Ok(Token::Yields)) by {
                        assert(rest[i] == items[i + 1]);
                    }
                }
                lemma_run_unit(rest, s2, d2);
            }
        }
    }
}

/// Tokens with no `+` and no `->` parse, when they parse, to a bare formula
/// unit, never to a side or an equation.
pub proof fn without_separators_a_unit(items: Seq<Result<Token, LexError>>)
    requires
        no_separators(items),
    ensures
        parse_items(items) matches Ok(t) ==> t is FormulaUnit,
{
    lemma_initial_wf();
    lemma_run_unit(items, seq![fresh_unit()], 0);
}

/// The parser's stack and depth after `items`, before the end of input is
/// handled, or the error met on the way.
pub open spec fn steps(items: Seq<Result<Token, LexError>>, st: Seq<Tree>, d: nat) -> Result<(Seq<Tree>, nat), Error>
    decreases items.len(),
{
    if items.len() == 0 {
        Ok((st, d))
    } else {
        match items[0] {
            Err(e) => Err(Error::Lex(e)),
            Ok(t) => {
                let rest = items.drop_first();
                match step(t, lookahead(rest), st, d) {
                    Err(e) => Err(Error::Parse(e)),
                    Ok((st2, d2, took)) => if took && rest.len() > 0 {
                        steps(rest.drop_first(), st2, d2)
                    } else {
                        steps(rest, st2, d2)
                    },
                }
            },
        }
    }
}

/// The stack that the parser starts from: one fresh formula unit.
pub open spec fn parser_start() -> Seq<Tree> {
    seq![fresh_unit()]
}

pub proof fn lemma_run_steps(items: Seq<Result<Token, LexError>>, st: Seq<Tree>, d: nat)
    ensures
        run(items, st, d) == match steps(items, st, d) {
            Err(e) => Err(e),
            Ok((s2, _)) => match finish(s2) {
                Ok(t) => Ok(t),
                Err(e) => Err(Error::Parse(e)),
            },
        },
    decreases items.len(),
{
    if items.len() > 0 {
        if let Ok(t) = items[0] {
            let rest = items.drop_first();
            if let Ok((s2, d2, took)) = step(t, lookahead(rest), st, d) {
                if took && rest.len() > 0 {
                    lemma_run_steps(rest.drop_first(), s2, d2);
                } else {
                    lemma_run_steps(rest, s2, d2);
                }
            }
        }
    }
}

/// Where the token at `k` is no number, no token before `k` reads it, so the
/// run splits there.
pub proof fn lemma_steps_split(items: Seq<Result<Token, LexError>>, k: int, st: Seq<Tree>, d: nat)
    requires
        0 <= k <= items.len(),
        lookahead(items.subrange(k, items.len() as int)) is None,
    ensures
        steps(items, st, d) == match steps(items.subrange(0, k), st, d) {
            Err(e) => Err(e),
            Ok((s2, d2)) => steps(items.subrange(k, items.len() as int), s2, d2),
        },
    decreases k,
{
    let n = items.len() as int;
    if k == 0 {
        assert(items.subrange(0, n) =~= items);
    } else {
        let pre = items.subrange(0, k);
        let rest = items.drop_first();
        assert(pre[0] == items[0]);
        if let Ok(t) = items[0] {
            assert(pre.drop_first() =~= rest.subrange(0, k - 1));
            if k >= 2 {
                assert(pre.drop_first()[0] == rest[0]);
            } else {
                assert(rest =~= items.subrange(k, n));
            }
            assert(lookahead(pre.drop_first()) == lookahead(rest));
            if let Ok((s2, d2, took)) = step(t, lookahead(rest), st, d) {
                if took && rest.len() > 0 {
                    assert(k >= 2);
                    let r2 = rest.drop_first();
                    assert(pre.drop_first().drop_first() =~= r2.subrange(0, k - 2));
                    assert(r2.subrange(k - 2, r2.len() as int) =~= items.subrange(k, n));
                    lemma_steps_split(r2, k - 2, s2, d2);
                } else {
                    assert(rest.subrange(k - 1, rest.len() as int) =~= items.subrange(k, n));
                    lemma_steps_split(rest, k - 1, s2, d2);
                }
            }
        }
    }
}

/// How much a token changes the number of open parentheses.
pub open spec fn paren_delta(item: Result<Token, LexError>) -> int {
    match item {
        Ok(Token::Paren(ParenType::OPEN)) => 1,
        Ok(Token::Paren(ParenType::CLOSE)) => -1,
        _ => 0,
    }
}

/// The number of `(` tokens less the number of `)` tokens.
pub open spec fn paren_balance(items: Seq<Result<Token, LexError>>) -> int
    decreases items.len(),
{
    if items.len() == 0 {
        0
    } else {
        paren_delta(items[0]) + paren_balance(items.drop_first())
    }
}

pub proof fn lemma_steps_depth(items: Seq<Result<Token, LexError>>, st: Seq<Tree>, d: nat)
    ensures
        steps(items, st, d) matches Ok((_, d2)) ==> d2 == d + paren_balance(items),
    decreases items.len(),
{
    if items.len() > 0 {
        if let Ok(t) = items[0] {
            let rest = items.drop_first();
            if let Ok((s2, d2, took)) = step(t, lookahead(rest), st, d) {
                if took && rest.len() > 0 {
                    lemma_steps_depth(rest.drop_first(), s2, d2);
                    assert(paren_delta(rest[0]) == 0);
                    assert(paren_balance(rest) == paren_delta(rest[0]) + paren_balance(rest.drop_first()));
                } else {
                    lemma_steps_depth(rest, s2, d2);
                }
            }
        }
    }
}

pub proof fn lemma_steps_wf(items: Seq<Result<Token, LexError>>, st: Seq<Tree>, d: nat)
    requires
        wf_stack(st, d),
    ensures
        steps(items, st, d) matches Ok((s2, d2)) ==> wf_stack(s2, d2),
    decreases items.len(),
{
    if items.len() > 0 {
        if let Ok(t) = items[0] {
            let rest = items.drop_first();
            lemma_step_wf(t, lookahead(rest), st, d);
            if let Ok((s2, d2, took)) = step(t, lookahead(rest), st, d) {
                if took && rest.len() > 0 {
                    lemma_steps_wf(rest.drop_first(), s2, d2);
                } else {
                    lemma_steps_wf(rest, s2, d2);
                }
            }
        }
    }
}

/// A `)` that closes no group (no more `(` than `)` before it) makes the
/// parse fail, with `InvalidClosingParen` where the tokens before it were
/// accepted.
pub proof fn unmatched_close_fails(items: Seq<Result<Token, LexError>>, k: int)
    requires
        0 <= k < items.len(),
        items[k] == Ok::<Token, LexError>(Token::Paren(ParenType::CLOSE)),
        paren_balance(items.subrange(0, k)) <= 0,
    ensures
        parse_items(items) is Err,
        steps(items.subrange(0, k), parser_start(), 0) is Ok ==> parse_items(items)
            == Err::<Tree, Error>(Error::Parse(ParseError::InvalidClosingParen)),
{
    let n = items.len() as int;
    let tail = items.subrange(k, n);
    assert(tail[0] == items[k]);
    lemma_run_steps(items, parser_start(), 0);
    lemma_steps_split(items, k, parser_start(), 0);
    lemma_steps_depth(items.subrange(0, k), parser_start(), 0);
}

/// Tokens with more `(` than `)` never parse: a group left open is an error.
pub proof fn unclosed_group_fails(items: Seq<Result<Token, LexError>>)
    requires
        paren_balance(items) > 0,
    ensures
        parse_items(items) is Err,
{
    lemma_initial_wf();
    lemma_run_steps(items, parser_start(), 0);
    lemma_steps_depth(items, parser_start(), 0);
    lemma_steps_wf(items, parser_start(), 0);
    if let Ok((s2, d2)) = steps(items, parser_start(), 0) {
        lemma_finish_wf(s2, d2);
    }
}

/// A lexical error makes the parse fail, with that very error where the
/// tokens before it were accepted.
pub proof fn lex_error_ends_parse(items: Seq<Result<Token, LexError>>, k: int, e: LexError)
    requires
        0 <= k < items.len(),
        items[k] == Err::<Token, LexError>(e),
    ensures
        parse_items(items) is Err,
        steps(items.subrange(0, k), parser_start(), 0) is Ok ==> parse_items(items) == Err::<Tree, Error>(
            Error::Lex(e),
        ),
{
    let n = items.len() as int;
    let tail = items.subrange(k, n);
    assert(tail[0] == items[k]);
    lemma_run_steps(items, parser_start(), 0);
    lemma_steps_split(items, k, parser_start(), 0);
}

pub proof fn lemma_digits_end_shift(x: Seq<char>, y: Seq<char>, p: int)
    requires
        0 <= p <= y.len(),
    ensures
        digits_end(x + y, x.len() + p) == digits_end(y, p) + x.len(),
    decreases y.len() - p,
{
    if p < y.len() {
        assert((x + y)[x.len() + p] == y[p]);
        lemma_digits_end_shift(x, y, p + 1);
    }
}

/// Reading from `x + y` past `x` reads as `y` does.
pub proof fn lemma_lex_shift(x: Seq<char>, y: Seq<char>, p: int)
    requires
        0 <= p <= y.len(),
    ensures
        lex_items(x + y, x.len() + p) == lex_items(y, p),
    decreases y.len() - p,
{
    let s = x + y;
    let o = x.len() as int;
    assert forall|i: int| 0 <= i < y.len() implies s[o + i] == y[i] by {}
    if p < y.len() && is_digit(y[p]) {
        lemma_digits_end_shift(x, y, p);
        lemma_digits_end(y, p);
        let e = digits_end(y, p);
        assert(s.subrange(o + p, o + e) =~= y.subrange(p, e));
    }
    if p + 2 <= y.len() {
        assert(s.subrange(o + p, o + p + 2) =~= y.subrange(p, p + 2));
    }
    if p + 1 <= y.len() {
        assert(s.subrange(o + p, o + p + 1) =~= y.subrange(p, p + 1));
    }
    lemma_lex_step_advances(y, p);
    match lex_step(y, p) {
        Some((Ok(_), q)) => {
            lemma_lex_shift(x, y, q);
        },
        _ => {},
    }
}

pub open spec fn is_letter(c: char) -> bool {
    is_upper(c) || is_lower(c)
}

/// Whether `a` reads without a lexical error and does not end in a `-`.
pub open spec fn lexes_cleanly(a: Seq<char>) -> bool {
    &&& forall|i: int| 0 <= i < lex_items(a, 0).len() ==> (#[trigger] lex_items(a, 0)[i]) is Ok
    &&& (a.len() > 0 ==> a.last() != '-')
}

/// Whether the last token of `a` cannot run on into `b`: no digit before a
/// digit, no letter before a lowercase letter.
pub open spec fn joins(a: Seq<char>, b: Seq<char>) -> bool {
    a.len() > 0 && b.len() > 0 ==> !(is_digit(a.last()) && is_digit(b[0])) && !(is_letter(a.last())
        && is_lower(b[0]))
}

pub proof fn lemma_digits_end_prefix(a: Seq<char>, b: Seq<char>, p: int)
    requires
        0 <= p < a.len(),
        is_digit(a[p]),
        joins(a, b),
    ensures
        digits_end(a + b, p) == digits_end(a, p),
    decreases a.len() - p,
{
    let s = a + b;
    assert(s[p] == a[p]);
    if p + 1 < a.len() && is_digit(a[p + 1]) {
        lemma_digits_end_prefix(a, b, p + 1);
    } else if p + 1 < a.len() {
        assert(s[p + 1] == a[p + 1]);
        assert(digits_end(s, p + 1) == p + 1);
        assert(digits_end(a, p + 1) == p + 1);
    } else {
        assert(a.last() == a[p]);
        if b.len() > 0 {
            assert(s[p + 1] == b[0]);
        }
        assert(digits_end(s, p + 1) == p + 1);
        assert(digits_end(a, p + 1) == p + 1);
    }
}

pub proof fn lemma_lex_step_prefix(a: Seq<char>, b: Seq<char>, p: int)
    requires
        0 <= p < a.len(),
        a.last() != '-',
        joins(a, b),
        lex_step(a, p) matches Some((Ok(_), _)),
    ensures
        lex_step(a + b, p) == lex_step(a, p),
{
    let s = a + b;
    let n = a.len() as int;
    assert forall|i: int| 0 <= i < n implies s[i] == a[i] by {}
    if b.len() > 0 {
        assert(s[n] == b[0]);
    }
    assert(a.last() == a[n - 1]);
    if is_digit(a[p]) {
        lemma_digits_end_prefix(a, b, p);
        lemma_digits_end(a, p);
        let e = digits_end(a, p);
        assert(s.subrange(p, e) =~= a.subrange(p, e));
    }
    if p + 2 <= n {
        assert(s.subrange(p, p + 2) =~= a.subrange(p, p + 2));
    }
    assert(s.subrange(p, p + 1) =~= a.subrange(p, p + 1));
}

/// Reading `a + b` reads the tokens of `a`, then those of `b`, where `a`
/// reads cleanly and its last token cannot run on into `b`.
pub proof fn lemma_lex_concat(a: Seq<char>, b: Seq<char>)
    requires
        lexes_cleanly(a),
        joins(a, b),
    ensures
        lex_items(a + b, 0) == lex_items(a, 0) + lex_items(b, 0),
{
    lemma_lex_concat_from(a, b, 0);
}

pub proof fn lemma_lex_concat_from(a: Seq<char>, b: Seq<char>, p: int)
    requires
        0 <= p <= a.len(),
        forall|i: int| 0 <= i < lex_items(a, p).len() ==> (#[trigger] lex_items(a, p)[i]) is Ok,
        a.len() > 0 ==> a.last() != '-',
        joins(a, b),
    ensures
        lex_items(a + b, p) == lex_items(a, p) + lex_items(b, 0),
    decreases a.len() - p,
{
    lemma_lex_step_advances(a, p);
    if p == a.len() {
        lemma_lex_shift(a, b, 0);
        assert(lex_items(a, p) =~= Seq::<Result<Token, LexError>>::empty());
        assert(lex_items(a + b, p) =~= lex_items(a, p) + lex_items(b, 0));
    } else {
        assert(a.last() == a[a.len() - 1]);
        match lex_step(a, p) {
            Some((Ok(t), q)) => {
                lemma_lex_step_prefix(a, b, p);
                let tail = lex_items(a, q);
                assert(lex_items(a, p) == seq![Ok::<Token, LexError>(t)] + tail);
                assert forall|i: int| 0 <= i < tail.len() implies (#[trigger] tail[i]) is Ok by {
                    assert(tail[i] == lex_items(a, p)[i + 1]);
                }
                lemma_lex_concat_from(a, b, q);
                assert(lex_items(a + b, p) =~= lex_items(a, p) + lex_items(b, 0));
            },
            Some((Err(e), _)) => {
                assert(lex_items(a, p)[0] == Err::<Token, LexError>(e));
            },
            None => {},
        }
    }
}

pub proof fn lemma_lex_no_separators(s: Seq<char>, p: int)
    requires
        0 <= p <= s.len(),
        forall|i: int| 0 <= i < s.len() ==> s[i] != '+',
        forall|i: int| 0 <= i < s.len() - 1 ==> !(#[trigger] s[i] == '-' && s[i + 1] == '>'),
    ensures
        no_separators(lex_items(s, p)),
    decreases s.len() - p,
{
    lemma_lex_step_advances(s, p);
    if let Some((Ok(t), q)) = lex_step(s, p) {
        lemma_lex_no_separators(s, q);
        let tail = lex_items(s, q);
        let all = lex_items(s, p);
        assert(all == seq![Ok::<Token, LexError>(t)] + tail);
        assert forall|i: int| 0 <= i < all.len() implies !(#[trigger] all[i] matches Ok(Token::Plus)) && !(
        all[i] matches Ok(Token::Yields)) by {
            if i > 0 {
                assert(all[i] == tail[i - 1]);
            }
        }
    }
}

/// A text with no `+` and no `->` parses, when it parses, to a bare formula
/// unit, never to a side or an equation.
pub proof fn formula_text_is_a_unit(s: Seq<char>)
    requires
        forall|i: int| 0 <= i < s.len() ==> s[i] != '+',
        forall|i: int| 0 <= i < s.len() - 1 ==> !(#[trigger] s[i] == '-' && s[i + 1] == '>'),
    ensures
        parse_text(s) matches Ok(t) ==> t is FormulaUnit,
{
    lemma_lex_no_separators(s, 0);
    without_separators_a_unit(lex_items(s, 0));
}

/// The items of `a + rest`, where `rest` starts with a lexical error `e`.
pub proof fn lemma_lex_error_after(a: Seq<char>, rest: Seq<char>, e: LexError)
    requires
        lexes_cleanly(a),
        joins(a, rest),
        lex_step(rest, 0) matches Some((Err(x), _)) && x == e,
    ensures
        lex_items(a + rest, 0) == lex_items(a, 0).push(Err::<Token, LexError>(e)),
        lex_items(a + rest, 0).subrange(0, lex_items(a, 0).len() as int) == lex_items(a, 0),
{
    lemma_lex_concat(a, rest);
    assert(lex_items(rest, 0) == seq![Err::<Token, LexError>(e)]);
    assert(lex_items(a + rest, 0) =~= lex_items(a, 0).push(Err::<Token, LexError>(e)));
    assert(lex_items(a + rest, 0).subrange(0, lex_items(a, 0).len() as int) =~= lex_items(a, 0));
}

/// After a text `a` that reads cleanly, a `-` not followed by `>` makes the
/// parse fail, with `IncompleteYields` where the tokens of `a` were accepted.
pub proof fn incomplete_yields_fails(a: Seq<char>, c: char, b: Seq<char>)
    requires
        lexes_cleanly(a),
        c != '>',
    ensures
        parse_text(a + (seq!['-', c] + b)) is Err,
        steps(lex_items(a, 0), parser_start(), 0) is Ok ==> parse_text(a + (seq!['-', c] + b))
            == Err::<Tree, Error>(Error::Lex(LexError::IncompleteYields)),
{
    let rest = seq!['-', c] + b;
    assert(rest[0] == '-' && rest[1] == c);
    lemma_lex_error_after(a, rest, LexError::IncompleteYields);
    lex_error_ends_parse(lex_items(a + rest, 0), lex_items(a, 0).len() as int, LexError::IncompleteYields);
}

/// After a text `a` that reads cleanly, a character outside letters, digits,
/// `(`, `)`, `+` and `-` makes the parse fail, with `InvalidCharacter` where
/// the tokens of `a` were accepted.
pub proof fn invalid_character_fails(a: Seq<char>, c: char, b: Seq<char>)
    requires
        lexes_cleanly(a),
        !is_letter(c) && !is_digit(c) && c != '(' && c != ')' && c != '+' && c != '-',
    ensures
        parse_text(a + (seq![c] + b)) is Err,
        steps(lex_items(a, 0), parser_start(), 0) is Ok ==> parse_text(a + (seq![c] + b))
            == Err::<Tree, Error>(Error::Lex(LexError::InvalidCharacter(c))),
{
    let rest = seq![c] + b;
    assert(rest[0] == c);
    lemma_lex_error_after(a, rest, LexError::InvalidCharacter(c));
    lex_error_ends_parse(lex_items(a + rest, 0), lex_items(a, 0).len() as int, LexError::InvalidCharacter(c));
}

/// After a text `a` that reads cleanly, an uppercase letter followed by two
/// lowercase letters makes the parse fail, with `ThreeLetterElement` where
/// the tokens of `a` were accepted.
pub proof fn three_letter_element_fails(a: Seq<char>, u: char, l1: char, l2: char, b: Seq<char>)
    requires
        lexes_cleanly(a),
        is_upper(u),
        is_lower(l1),
        is_lower(l2),
    ensures
        parse_text(a + (seq![u, l1, l2] + b)) is Err,
        steps(lex_items(a, 0), parser_start(), 0) is Ok ==> parse_text(a + (seq![u, l1, l2] + b))
            == Err::<Tree, Error>(Error::Lex(LexError::ThreeLetterElement)),
{
    let rest = seq![u, l1, l2] + b;
    assert(rest[0] == u && rest[1] == l1 && rest[2] == l2);
    lemma_lex_error_after(a, rest, LexError::ThreeLetterElement);
    lex_error_ends_parse(lex_items(a + rest, 0), lex_items(a, 0).len() as int, LexError::ThreeLetterElement);
}

/// After a text `a` that reads cleanly with no more `(` than `)`, a `)`
/// makes the parse fail, with `InvalidClosingParen` where the tokens of `a`
/// were accepted.
pub proof fn unmatched_close_text_fails(a: Seq<char>, b: Seq<char>)
    requires
        lexes_cleanly(a),
        paren_balance(lex_items(a, 0)) <= 0,
    ensures
        parse_text(a + (seq![')'] + b)) is Err,
        steps(lex_items(a, 0), parser_start(), 0) is Ok ==> parse_text(a + (seq![')'] + b))
            == Err::<Tree, Error>(Error::Parse(ParseError::InvalidClosingParen)),
{
    let rest = seq![')'] + b;
    assert(rest[0] == ')');
    lemma_lex_concat(a, rest);
    let items = lex_items(a + rest, 0);
    let k = lex_items(a, 0).len() as int;
    assert(lex_items(rest, 0)[0] == Ok::<Token, LexError>(Token::Paren(ParenType::CLOSE)));
    assert(items[k] == lex_items(rest, 0)[0]);
    assert(items.subrange(0, k) =~= lex_items(a, 0));
    unmatched_close_fails(items, k);
}

} // verus!
