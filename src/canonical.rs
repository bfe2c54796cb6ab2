//! The canonical text of a tree, every number written out, and the proof
//! that it parses back to that tree.
use vstd::prelude::*;

use crate::ast_types::{Node, Tree, trees_of};
use crate::parse_text;
use crate::parser::{fresh_unit, finish, lookahead, on_close, parse_items, run, step, Error};
use crate::lexer::{digits_value, is_digit, is_lower, is_upper, lex_items, lex_step, lemma_digits_end_at};
use crate::theorems::{
    group_tree, is_letter, joins, lemma_lex_concat, lemma_run_steps, lemma_steps_split, lexes_cleanly,
    parse_result_is_well_formed, parser_start, result_tree, steps, unit_child, unit_tree, units,
};
use crate::token_types::{LexError, ParenType, Token};

verus! {

/// A token as a token source hands it out.
pub open spec fn tok(t: Token) -> Result<Token, LexError> {
    Ok(t)
}

/// The canonical tokens of a tree: every subscript and coefficient written
/// out, units of a side joined by `+`, sides by `->`.
pub open spec fn node_tokens(t: Tree) -> Seq<Result<Token, LexError>>
    decreases t,
{
    match t {
        Tree::Element(n, sym) => seq![tok(Token::Element(sym)), tok(Token::Number(n))],
        Tree::Group(n, ch) => seq![tok(Token::Paren(ParenType::OPEN))] + children_tokens(ch) + seq![
            tok(Token::Paren(ParenType::CLOSE)),
            tok(Token::Number(n)),
        ],
        Tree::FormulaUnit(c, ch) => seq![tok(Token::Number(c))] + children_tokens(ch),
        Tree::Reactants(l) => side_tokens(l),
        Tree::Products(l) => side_tokens(l),
        Tree::Equation(r, p) => node_tokens(*r) + seq![tok(Token::Yields)] + node_tokens(*p),
    }
}

/// The canonical tokens of a list of children, one after the other.
pub open spec fn children_tokens(ch: Seq<Tree>) -> Seq<Result<Token, LexError>>
    decreases ch,
{
    if ch.len() == 0 {
        Seq::empty()
    } else {
        children_tokens(ch.subrange(0, ch.len() - 1)) + node_tokens(ch[ch.len() - 1])
    }
}

/// The canonical tokens of the units of a side, joined by `+`.
pub open spec fn side_tokens(l: Seq<Tree>) -> Seq<Result<Token, LexError>>
    decreases l,
{
    if l.len() == 0 {
        Seq::empty()
    } else if l.len() == 1 {
        node_tokens(l[0])
    } else {
        side_tokens(l.subrange(0, l.len() - 1)) + seq![tok(Token::Plus)] + node_tokens(l[l.len() - 1])
    }
}

/// The stack with `c` made the last child of the unit or group on top.
pub open spec fn with_child(st: Seq<Tree>, c: Tree) -> Seq<Tree> {
    match st.last() {
        Tree::FormulaUnit(k, ch) => st.drop_last().push(Tree::FormulaUnit(k, ch.push(c))),
        Tree::Group(m, ch) => st.drop_last().push(Tree::Group(m, ch.push(c))),
        _ => st,
    }
}

/// The stack with the children `ch` added after those of the top.
pub open spec fn with_children(st: Seq<Tree>, ch: Seq<Tree>) -> Seq<Tree> {
    match st.last() {
        Tree::FormulaUnit(k, c0) => st.drop_last().push(Tree::FormulaUnit(k, c0 + ch)),
        Tree::Group(m, c0) => st.drop_last().push(Tree::Group(m, c0 + ch)),
        _ => st,
    }
}

pub proof fn lemma_node_tokens_head(t: Tree)
    requires
        unit_child(t),
    ensures
        node_tokens(t).len() >= 2,
        !(node_tokens(t)[0] matches Ok(Token::Number(_))),
{
}

pub proof fn lemma_children_tokens_head(ch: Seq<Tree>)
    requires
        forall|i: int| 0 <= i < ch.len() ==> unit_child(#[trigger] ch[i]),
    ensures
        lookahead(children_tokens(ch)) is None,
    decreases ch.len(),
{
    if ch.len() > 0 {
        let init = ch.subrange(0, ch.len() - 1);
        lemma_children_tokens_head(init);
        lemma_node_tokens_head(ch[ch.len() - 1]);
        if init.len() == 0 {
            assert(children_tokens(init) =~= Seq::empty());
            assert(children_tokens(ch) =~= node_tokens(ch[ch.len() - 1]));
        } else {
            lemma_children_tokens_len(init);
            assert(children_tokens(ch)[0] == children_tokens(init)[0]);
        }
    }
}

pub proof fn lemma_children_tokens_len(ch: Seq<Tree>)
    requires
        ch.len() > 0,
        forall|i: int| 0 <= i < ch.len() ==> unit_child(#[trigger] ch[i]),
    ensures
        children_tokens(ch).len() > 0,
    decreases ch.len(),
{
    lemma_node_tokens_head(ch[ch.len() - 1]);
}

/// The tokens of one child, read with a unit or group on top of the stack,
/// make it the top's last child (an element only under a unit).
pub proof fn lemma_child_steps(c: Tree, st: Seq<Tree>, d: nat)
    requires
        unit_child(c),
        st.len() > 0,
        st.last() is FormulaUnit || (st.last() is Group && group_tree(c)),
    ensures
        steps(node_tokens(c), st, d) == Ok::<(Seq<Tree>, nat), Error>((with_child(st, c), d)),
    decreases c, 0int,
{
    let items = node_tokens(c);
    match c {
        Tree::Element(n, sym) => {
            let rest = items.drop_first();
            assert(rest.drop_first() =~= Seq::<Result<Token, LexError>>::empty());
            let s2 = with_child(st, c);
            assert(steps(rest.drop_first(), s2, d) == Ok::<(Seq<Tree>, nat), Error>((s2, d)));
            assert(items[0] == Ok::<Token, LexError>(Token::Element(sym)));
            assert(lookahead(rest) == Some(n));
            assert(step(Token::Element(sym), Some(n), st, d) == Ok::<(Seq<Tree>, nat, bool), crate::parser::ParseError>((s2, d, true)));
            assert(steps(items, st, d) == Ok::<(Seq<Tree>, nat), Error>((s2, d)));
        },
        Tree::Group(n, gch) => {
            assert(forall|i: int| 0 <= i < gch.len() ==> group_tree(#[trigger] gch[i]));
            let open = seq![tok(Token::Paren(ParenType::OPEN))];
            let mid = children_tokens(gch);
            let close = seq![tok(Token::Paren(ParenType::CLOSE)), tok(Token::Number(n))];
            assert(items == open + mid + close);
            let st1 = st.push(Tree::Group(1, Seq::empty()));
            // the opening parenthesis
            assert(forall|i: int| 0 <= i < gch.len() ==> unit_child(#[trigger] gch[i]));
            lemma_children_tokens_head(gch);
            let after_open = items.drop_first();
            assert(after_open =~= mid + close);
            if mid.len() > 0 {
                assert(lookahead(after_open) == lookahead(mid));
            }
            assert(steps(items, st, d) == steps(after_open, st1, d + 1));
            // the children
            lemma_children_steps(gch, st1, d + 1);
            lemma_steps_split(after_open, mid.len() as int, st1, d + 1);
            assert(after_open.subrange(0, mid.len() as int) =~= mid);
            assert(after_open.subrange(mid.len() as int, after_open.len() as int) =~= close);
            let st2 = with_children(st1, gch);
            assert(Seq::<Tree>::empty() + gch =~= gch);
            assert(st2 == st.push(Tree::Group(1, gch)));
            // the closing parenthesis and its subscript
            assert(close.drop_first().drop_first() =~= Seq::<Result<Token, LexError>>::empty());
            assert(st2.drop_last() =~= st);
            assert(on_close(st2, n) == Ok::<Seq<Tree>, crate::parser::ParseError>(with_child(st, c)));
            assert(lookahead(close.drop_first()) == Some(n));
            assert(close[0] == Ok::<Token, LexError>(Token::Paren(ParenType::CLOSE)));
            assert(step(Token::Paren(ParenType::CLOSE), Some(n), st2, d + 1) == Ok::<(Seq<Tree>, nat, bool), crate::parser::ParseError>((with_child(st, c), d, true)));
            assert(steps(close.drop_first().drop_first(), with_child(st, c), d) == Ok::<(Seq<Tree>, nat), Error>((with_child(st, c), d)));
            assert(steps(close, st2, d + 1) == Ok::<(Seq<Tree>, nat), Error>((with_child(st, c), d)));
            assert(steps(mid, st1, d + 1) == Ok::<(Seq<Tree>, nat), Error>((st2, d + 1)));
            assert(steps(items, st, d) == Ok::<(Seq<Tree>, nat), Error>((with_child(st, c), d)));
        },
        _ => {
            assert(group_tree(c));
        },
    }
}

/// The tokens of a list of children, read with a unit or group on top of the
/// stack, add them after the top's children, in order.
pub proof fn lemma_children_steps(ch: Seq<Tree>, st: Seq<Tree>, d: nat)
    requires
        forall|i: int| 0 <= i < ch.len() ==> unit_child(#[trigger] ch[i]),
        st.len() > 0,
        st.last() is FormulaUnit || (st.last() is Group && forall|i: int| 0 <= i < ch.len() ==> group_tree(#[trigger] ch[i])),
    ensures
        steps(children_tokens(ch), st, d) == Ok::<(Seq<Tree>, nat), Error>((with_children(st, ch), d)),
    decreases ch, 1int,
{
    if ch.len() == 0 {
        assert(children_tokens(ch) =~= Seq::<Result<Token, LexError>>::empty());
        assert(steps(children_tokens(ch), st, d) == Ok::<(Seq<Tree>, nat), Error>((st, d)));
        match st.last() {
            Tree::FormulaUnit(k, c0) => {
                assert(c0 + ch =~= c0);
                assert(st.drop_last().push(st.last()) =~= st);
            },
            Tree::Group(m, c0) => {
                assert(c0 + ch =~= c0);
                assert(st.drop_last().push(st.last()) =~= st);
            },
            _ => {},
        }
    } else {
        let init = ch.subrange(0, ch.len() - 1);
        let c = ch[ch.len() - 1];
        assert(forall|i: int| 0 <= i < init.len() ==> init[i] == ch[i]);
        assert(unit_child(c));
        lemma_children_steps(init, st, d);
        let a = children_tokens(init);
        let b = node_tokens(c);
        let items = a + b;
        assert(items == children_tokens(ch));
        lemma_node_tokens_head(c);
        lemma_steps_split(items, a.len() as int, st, d);
        assert(items.subrange(0, a.len() as int) =~= a);
        assert(items.subrange(a.len() as int, items.len() as int) =~= b);
        let st1 = with_children(st, init);
        lemma_child_steps(c, st1, d);
        match st.last() {
            Tree::FormulaUnit(k, c0) => {
                assert(c0 + init + seq![c] =~= c0 + ch);
                assert((c0 + init).push(c) =~= c0 + ch);
            },
            Tree::Group(m, c0) => {
                assert((c0 + init).push(c) =~= c0 + ch);
            },
            _ => {},
        }
        assert(steps(a, st, d) == Ok::<(Seq<Tree>, nat), Error>((st1, d)));
        assert(steps(b, st1, d) == Ok::<(Seq<Tree>, nat), Error>((with_child(st1, c), d)));
        assert(with_child(st1, c) == with_children(st, ch));
    }
}

/// The tokens of a unit, read on a fresh unit, leave that unit in its place.
pub proof fn lemma_unit_steps(u: Tree, base: Seq<Tree>)
    requires
        unit_tree(u),
    ensures
        steps(node_tokens(u), base.push(fresh_unit()), 0) == Ok::<(Seq<Tree>, nat), Error>((base.push(u), 0)),
{
    if let Tree::FormulaUnit(c, ch) = u {
        let items = node_tokens(u);
        let rest = children_tokens(ch);
        assert(items.drop_first() =~= rest);
        let st1 = base.push(Tree::FormulaUnit(c, Seq::empty()));
        assert(base.push(fresh_unit()).drop_last() =~= base);
        assert(steps(items, base.push(fresh_unit()), 0) == steps(rest, st1, 0));
        lemma_children_steps(ch, st1, 0);
        assert(Seq::<Tree>::empty() + ch =~= ch);
        assert(st1.drop_last() =~= base);
    }
}

/// The stack after the units `l` of the reactants side.
pub open spec fn reactants_state(l: Seq<Tree>) -> Seq<Tree> {
    if l.len() == 1 {
        seq![l[0]]
    } else {
        seq![Tree::Reactants(l.drop_last()), l.last()]
    }
}

pub proof fn lemma_side_split(l: Seq<Tree>, st: Seq<Tree>)
    requires
        l.len() >= 2,
    ensures
        ({
            let a = side_tokens(l.subrange(0, l.len() - 1));
            let b = seq![tok(Token::Plus)] + node_tokens(l[l.len() - 1]);
            &&& side_tokens(l) == a + b
            &&& steps(side_tokens(l), st, 0) == match steps(a, st, 0) {
                Err(e) => Err(e),
                Ok((s2, d2)) => steps(b, s2, d2),
            }
        }),
{
    let a = side_tokens(l.subrange(0, l.len() - 1));
    let b = seq![tok(Token::Plus)] + node_tokens(l[l.len() - 1]);
    let items = a + b;
    assert(side_tokens(l) =~= items);
    assert(items.subrange(0, a.len() as int) =~= a);
    assert(items.subrange(a.len() as int, items.len() as int) =~= b);
    assert(b[0] == tok(Token::Plus));
    lemma_steps_split(items, a.len() as int, st, 0);
}

pub proof fn lemma_reactants_steps(l: Seq<Tree>)
    requires
        l.len() >= 1,
        units(l),
    ensures
        steps(side_tokens(l), seq![fresh_unit()], 0) == Ok::<(Seq<Tree>, nat), Error>((reactants_state(l), 0)),
    decreases l.len(),
{
    if l.len() == 1 {
        assert(unit_tree(l[0]));
        lemma_unit_steps(l[0], Seq::empty());
        assert(Seq::<Tree>::empty().push(fresh_unit()) =~= seq![fresh_unit()]);
        assert(Seq::<Tree>::empty().push(l[0]) =~= seq![l[0]]);
    } else {
        let init = l.subrange(0, l.len() - 1);
        let u = l[l.len() - 1];
        assert(forall|i: int| 0 <= i < init.len() ==> init[i] == l[i]);
        assert(unit_tree(u));
        lemma_reactants_steps(init);
        lemma_side_split(l, seq![fresh_unit()]);
        let s1 = reactants_state(init);
        let b = seq![tok(Token::Plus)] + node_tokens(u);
        let base = seq![Tree::Reactants(init)];
        assert(unit_tree(init[init.len() - 1]));
        assert(s1.last() == init[init.len() - 1]);
        assert(s1.last() is FormulaUnit);
        if init.len() == 1 {
            assert(seq![init[0]] =~= init);
            assert(s1.drop_last() =~= Seq::<Tree>::empty());
            assert(seq![Tree::Reactants(seq![init[0]]), fresh_unit()] =~= base.push(fresh_unit()));
        } else {
            assert(init.drop_last().push(init.last()) =~= init);
            assert(s1.drop_last() =~= seq![Tree::Reactants(init.drop_last())]);
            assert(s1.drop_last().drop_last() =~= Seq::<Tree>::empty());
            assert(Seq::<Tree>::empty().push(Tree::Reactants(init)).push(fresh_unit()) =~= base.push(fresh_unit()));
        }
        assert(crate::parser::on_plus(s1) == Ok::<Seq<Tree>, crate::parser::ParseError>(base.push(fresh_unit())));
        assert(b.drop_first() =~= node_tokens(u));
        lemma_unit_steps(u, base);
        assert(steps(b, s1, 0) == steps(node_tokens(u), base.push(fresh_unit()), 0));
        assert(l.drop_last() =~= init);
        assert(base.push(u) =~= reactants_state(l));
    }
}

/// The stack after the units `m` of the products side, behind reactants `r`.
pub open spec fn products_state(r: Seq<Tree>, m: Seq<Tree>) -> Seq<Tree> {
    seq![Tree::Reactants(r), Tree::Products(m.drop_last()), m.last()]
}

pub proof fn lemma_products_steps(r: Seq<Tree>, m: Seq<Tree>)
    requires
        m.len() >= 1,
        units(m),
    ensures
        steps(side_tokens(m), seq![Tree::Reactants(r), Tree::Products(Seq::empty()), fresh_unit()], 0)
            == Ok::<(Seq<Tree>, nat), Error>((products_state(r, m), 0)),
    decreases m.len(),
{
    let start = seq![Tree::Reactants(r), Tree::Products(Seq::empty()), fresh_unit()];
    let base0 = seq![Tree::Reactants(r), Tree::Products(Seq::empty())];
    assert(base0.push(fresh_unit()) =~= start);
    if m.len() == 1 {
        assert(unit_tree(m[0]));
        lemma_unit_steps(m[0], base0);
        assert(m.drop_last() =~= Seq::<Tree>::empty());
        assert(base0.push(m[0]) =~= products_state(r, m));
    } else {
        let init = m.subrange(0, m.len() - 1);
        let u = m[m.len() - 1];
        assert(forall|i: int| 0 <= i < init.len() ==> init[i] == m[i]);
        assert(unit_tree(u));
        lemma_products_steps(r, init);
        lemma_side_split(m, start);
        let s1 = products_state(r, init);
        let b = seq![tok(Token::Plus)] + node_tokens(u);
        let base = seq![Tree::Reactants(r), Tree::Products(init)];
        assert(init.drop_last().push(init.last()) =~= init);
        assert(unit_tree(init[init.len() - 1]));
        assert(s1.last() is FormulaUnit);
        assert(s1.drop_last() =~= seq![Tree::Reactants(r), Tree::Products(init.drop_last())]);
        assert(s1.drop_last().drop_last() =~= seq![Tree::Reactants(r)]);
        assert(seq![Tree::Reactants(r)].push(Tree::Products(init.drop_last().push(init.last()))).push(fresh_unit()) =~= base.push(fresh_unit()));
        assert(crate::parser::on_plus(s1) == Ok::<Seq<Tree>, crate::parser::ParseError>(base.push(fresh_unit())));
        assert(b.drop_first() =~= node_tokens(u));
        lemma_unit_steps(u, base);
        assert(steps(b, s1, 0) == steps(node_tokens(u), base.push(fresh_unit()), 0));
        assert(m.drop_last() =~= init);
        assert(base.push(u) =~= products_state(r, m));
    }
}

/// The canonical tokens of every tree that a parse can return parse back to
/// that same tree.
pub proof fn canonical_tokens_parse_back(t: Tree)
    requires
        result_tree(t),
    ensures
        parse_items(node_tokens(t)) == Ok::<Tree, Error>(t),
{
    lemma_run_steps(node_tokens(t), parser_start(), 0);
    if unit_tree(t) {
        lemma_unit_steps(t, Seq::empty());
        assert(Seq::<Tree>::empty().push(fresh_unit()) =~= parser_start());
        assert(Seq::<Tree>::empty().push(t) =~= seq![t]);
    } else if let Tree::Equation(rb, pb) = t {
        let l1 = rb->Reactants_0;
        let l2 = pb->Products_0;
        assert(*rb == Tree::Reactants(l1));
        assert(*pb == Tree::Products(l2));
        assert(node_tokens(t) == node_tokens(*rb) + seq![tok(Token::Yields)] + node_tokens(*pb));
        let a = side_tokens(l1);
        let b = seq![tok(Token::Yields)] + side_tokens(l2);
        let items = a + b;
        assert(node_tokens(t) =~= items);
        assert(items.subrange(0, a.len() as int) =~= a);
        assert(items.subrange(a.len() as int, items.len() as int) =~= b);
        assert(b[0] == tok(Token::Yields));
        lemma_steps_split(items, a.len() as int, parser_start(), 0);
        lemma_reactants_steps(l1);
        let s1 = reactants_state(l1);
        let start2 = seq![Tree::Reactants(l1), Tree::Products(Seq::empty()), fresh_unit()];
        assert(unit_tree(l1[l1.len() - 1]));
        assert(s1.last() is FormulaUnit);
        if l1.len() == 1 {
            assert(seq![l1[0]] =~= l1);
            assert(s1.drop_last() =~= Seq::<Tree>::empty());
        } else {
            assert(l1.drop_last().push(l1.last()) =~= l1);
            assert(s1.drop_last() =~= seq![Tree::Reactants(l1.drop_last())]);
            assert(s1.drop_last().drop_last() =~= Seq::<Tree>::empty());
            assert(Seq::<Tree>::empty().push(Tree::Reactants(l1)).push(Tree::Products(Seq::empty())).push(fresh_unit()) =~= start2);
        }
        assert(crate::parser::on_yields(s1) == Ok::<Seq<Tree>, crate::parser::ParseError>(start2));
        assert(b.drop_first() =~= side_tokens(l2));
        lemma_products_steps(l1, l2);
        assert(steps(b, s1, 0) == steps(side_tokens(l2), start2, 0));
        assert(l2.drop_last().push(l2.last()) =~= l2);
        let fin = products_state(l1, l2);
        assert(finish(fin) == Ok::<Tree, crate::parser::ParseError>(t));
    }
}

pub open spec fn digit_char(d: nat) -> char {
    seq!['0', '1', '2', '3', '4', '5', '6', '7', '8', '9'][d as int]
}

pub proof fn lemma_digit_char(d: nat)
    requires
        d < 10,
    ensures
        is_digit(digit_char(d)),
        crate::lexer::digit_value(digit_char(d)) == d,
{
    let s = seq!['0', '1', '2', '3', '4', '5', '6', '7', '8', '9'];
    assert(s[0] == '0' && s[1] == '1' && s[2] == '2' && s[3] == '3' && s[4] == '4');
    assert(s[5] == '5' && s[6] == '6' && s[7] == '7' && s[8] == '8' && s[9] == '9');
}

/// The decimal digits of `n`, with no leading zero.
pub open spec fn decimal(n: nat) -> Seq<char>
    decreases n,
{
    if n < 10 {
        seq![digit_char(n)]
    } else {
        decimal(n / 10).push(digit_char(n % 10))
    }
}

pub proof fn lemma_decimal(n: nat)
    ensures
        decimal(n).len() >= 1,
        forall|i: int| 0 <= i < decimal(n).len() ==> is_digit(#[trigger] decimal(n)[i]),
        digits_value(decimal(n)) == n,
    decreases n,
{
    let d = decimal(n);
    if n < 10 {
        lemma_digit_char(n);
        assert(d.drop_last() =~= Seq::<char>::empty());
        assert(d.last() == digit_char(n));
        assert(digits_value(d.drop_last()) == 0);
        assert(digits_value(d) == digits_value(d.drop_last()) * 10 + crate::lexer::digit_value(d.last()));
    } else {
        lemma_decimal(n / 10);
        lemma_digit_char(n % 10);
        assert(d.drop_last() =~= decimal(n / 10));
        assert(d.last() == digit_char(n % 10));
        assert((n / 10) * 10 + n % 10 == n) by (nonlinear_arith);
        assert(digits_value(d) == digits_value(d.drop_last()) * 10 + crate::lexer::digit_value(d.last()));
        assert forall|i: int| 0 <= i < d.len() implies is_digit(#[trigger] d[i]) by {
            if i < d.len() - 1 {
                assert(d[i] == decimal(n / 10)[i]);
            }
        }
    }
}

/// An element symbol: an uppercase letter, then at most one lowercase letter.
pub open spec fn valid_symbol(sym: Seq<char>) -> bool {
    ||| sym.len() == 1 && is_upper(sym[0])
    ||| sym.len() == 2 && is_upper(sym[0]) && is_lower(sym[1])
}

/// The canonical text of a token.
pub open spec fn token_text(t: Token) -> Seq<char> {
    match t {
        Token::Element(sym) => sym,
        Token::Number(n) => decimal(n as nat),
        Token::Paren(ParenType::OPEN) => seq!['('],
        Token::Paren(ParenType::CLOSE) => seq![')'],
        Token::Plus => seq!['+'],
        Token::Yields => seq!['-', '>'],
    }
}

/// The canonical text of a token sequence: the texts of its tokens, one
/// after the other.
pub open spec fn items_text(items: Seq<Result<Token, LexError>>) -> Seq<char>
    decreases items.len(),
{
    if items.len() == 0 {
        Seq::empty()
    } else {
        match items[0] {
            Ok(t) => token_text(t) + items_text(items.drop_first()),
            Err(_) => items_text(items.drop_first()),
        }
    }
}

/// Whether a token sequence reads back from its text: only tokens, element
/// symbols well formed, and no number right after a number.
pub open spec fn printable(items: Seq<Result<Token, LexError>>) -> bool {
    &&& forall|i: int| 0 <= i < items.len() ==> (#[trigger] items[i]) is Ok
    &&& forall|i: int|
        0 <= i < items.len() ==> (#[trigger] items[i] matches Ok(Token::Element(sym)) ==> valid_symbol(sym))
    &&& forall|i: int|
        0 <= i < items.len() - 1 ==> !(#[trigger] items[i] matches Ok(Token::Number(_)) && items[i + 1] matches Ok(
            Token::Number(_),
        ))
}

pub proof fn lemma_token_lexes(t: Token)
    requires
        t matches Token::Element(sym) ==> valid_symbol(sym),
    ensures
        lexes_cleanly(token_text(t)),
        lex_items(token_text(t), 0) == seq![Ok::<Token, LexError>(t)],
        token_text(t).len() > 0,
        is_digit(token_text(t)[0]) == (t is Number),
        !is_lower(token_text(t)[0]),
        is_letter(token_text(t).last()) ==> t is Element,
        is_digit(token_text(t).last()) ==> t is Number,
{
    let x = token_text(t);
    let n = x.len() as int;
    assert(lex_items(x, n) =~= Seq::<Result<Token, LexError>>::empty());
    match t {
        Token::Number(v) => {
            lemma_decimal(v as nat);
            lemma_digits_end_at(x, 0, n);
            assert(x.subrange(0, n) =~= x);
            assert(x.last() == x[n - 1]);
        },
        Token::Element(sym) => {
            assert(x.subrange(0, n) =~= x);
        },
        _ => {},
    }
    assert(lex_items(x, 0) =~= seq![Ok::<Token, LexError>(t)]);
}

/// The canonical text of a printable token sequence reads back as that
/// very sequence.
pub proof fn lemma_lex_printable(items: Seq<Result<Token, LexError>>)
    requires
        printable(items),
    ensures
        lex_items(items_text(items), 0) == items,
        items.len() > 0 ==> items_text(items).len() > 0 && (is_digit(items_text(items)[0]) == (
        items[0] matches Ok(Token::Number(_)))) && !is_lower(items_text(items)[0]),
    decreases items.len(),
{
    if items.len() == 0 {
        assert(lex_items(Seq::<char>::empty(), 0) =~= items);
    } else {
        let t = items[0]->Ok_0;
        let rest = items.drop_first();
        assert(items[0] == Ok::<Token, LexError>(t));
        assert(printable(rest)) by {
            assert forall|i: int| 0 <= i < rest.len() implies #[trigger] rest[i] == items[i + 1] by {}
        }
        lemma_lex_printable(rest);
        lemma_token_lexes(t);
        let a = token_text(t);
        let b = items_text(rest);
        if rest.len() > 0 {
            assert(rest[0] == items[1]);
        }
        assert(joins(a, b));
        lemma_lex_concat(a, b);
        assert(lex_items(a + b, 0) =~= items);
        assert((a + b)[0] == a[0]);
    }
}

/// Whether every element symbol in a tree is well formed.
pub open spec fn symbols_ok(t: Tree) -> bool
    decreases t,
{
    match t {
        Tree::Element(_, sym) => valid_symbol(sym),
        Tree::Group(_, ch) => forall|i: int| 0 <= i < ch.len() ==> symbols_ok(#[trigger] ch[i]),
        Tree::FormulaUnit(_, ch) => forall|i: int| 0 <= i < ch.len() ==> symbols_ok(#[trigger] ch[i]),
        Tree::Reactants(l) => forall|i: int| 0 <= i < l.len() ==> symbols_ok(#[trigger] l[i]),
        Tree::Products(l) => forall|i: int| 0 <= i < l.len() ==> symbols_ok(#[trigger] l[i]),
        Tree::Equation(r, p) => symbols_ok(*r) && symbols_ok(*p),
    }
}

pub open spec fn starts_with_number(items: Seq<Result<Token, LexError>>) -> bool {
    items.len() > 0 && items[0] matches Ok(Token::Number(_))
}

pub open spec fn ends_with_number(items: Seq<Result<Token, LexError>>) -> bool {
    items.len() > 0 && items[items.len() - 1] matches Ok(Token::Number(_))
}

pub proof fn lemma_printable_concat(a: Seq<Result<Token, LexError>>, b: Seq<Result<Token, LexError>>)
    requires
        printable(a),
        printable(b),
        !(ends_with_number(a) && starts_with_number(b)),
    ensures
        printable(a + b),
        starts_with_number(a + b) == (if a.len() > 0 { starts_with_number(a) } else { starts_with_number(b) }),
        ends_with_number(a + b) == (if b.len() > 0 { ends_with_number(b) } else { ends_with_number(a) }),
{
    let c = a + b;
    assert forall|i: int| 0 <= i < c.len() implies #[trigger] c[i] == (if i < a.len() { a[i] } else { b[i - a.len()] }) by {}
    assert forall|i: int| 0 <= i < c.len() - 1 implies !(#[trigger] c[i] matches Ok(Token::Number(_)) && c[i + 1] matches Ok(
        Token::Number(_),
    )) by {
        if i == a.len() - 1 {
            assert(c[i] == a[a.len() - 1]);
            assert(c[i + 1] == b[0]);
        } else if i < a.len() - 1 {
            assert(c[i] == a[i] && c[i + 1] == a[i + 1]);
        } else {
            assert(c[i] == b[i - a.len()] && c[i + 1] == b[i - a.len() + 1]);
        }
    }
    if b.len() > 0 {
        assert(c[c.len() - 1] == b[b.len() - 1]);
    }
}

pub proof fn lemma_child_printable(c: Tree)
    requires
        unit_child(c),
        symbols_ok(c),
    ensures
        printable(node_tokens(c)),
        !starts_with_number(node_tokens(c)),
        ends_with_number(node_tokens(c)),
    decreases c, 0int,
{
    match c {
        Tree::Element(n, sym) => {
            let x = node_tokens(c);
            assert(x[0] == tok(Token::Element(sym)) && x[1] == tok(Token::Number(n)));
        },
        Tree::Group(n, gch) => {
            assert(forall|i: int| 0 <= i < gch.len() ==> group_tree(#[trigger] gch[i]));
            assert(forall|i: int| 0 <= i < gch.len() ==> unit_child(#[trigger] gch[i]));
            lemma_children_printable(gch);
            let open = seq![tok(Token::Paren(ParenType::OPEN))];
            let mid = children_tokens(gch);
            let close = seq![tok(Token::Paren(ParenType::CLOSE)), tok(Token::Number(n))];
            assert(printable(open));
            assert(printable(close));
            lemma_printable_concat(open, mid);
            lemma_printable_concat(open + mid, close);
        },
        _ => {},
    }
}

pub proof fn lemma_children_printable(ch: Seq<Tree>)
    requires
        forall|i: int| 0 <= i < ch.len() ==> unit_child(#[trigger] ch[i]),
        forall|i: int| 0 <= i < ch.len() ==> symbols_ok(#[trigger] ch[i]),
    ensures
        printable(children_tokens(ch)),
        !starts_with_number(children_tokens(ch)),
        ch.len() > 0 ==> ends_with_number(children_tokens(ch)),
    decreases ch, 1int,
{
    if ch.len() == 0 {
        assert(children_tokens(ch) =~= Seq::<Result<Token, LexError>>::empty());
    } else {
        let init = ch.subrange(0, ch.len() - 1);
        let c = ch[ch.len() - 1];
        assert(forall|i: int| 0 <= i < init.len() ==> init[i] == ch[i]);
        assert(unit_child(c) && symbols_ok(c));
        lemma_children_printable(init);
        lemma_child_printable(c);
        if init.len() == 0 {
            assert(children_tokens(init) =~= Seq::<Result<Token, LexError>>::empty());
        }
        lemma_printable_concat(children_tokens(init), node_tokens(c));
    }
}

pub proof fn lemma_unit_printable(u: Tree)
    requires
        unit_tree(u),
        symbols_ok(u),
    ensures
        printable(node_tokens(u)),
        starts_with_number(node_tokens(u)),
{
    if let Tree::FormulaUnit(k, ch) = u {
        lemma_children_printable(ch);
        let head = seq![tok(Token::Number(k))];
        assert(printable(head));
        lemma_printable_concat(head, children_tokens(ch));
    }
}

pub proof fn lemma_side_printable(l: Seq<Tree>)
    requires
        l.len() > 0,
        units(l),
        forall|i: int| 0 <= i < l.len() ==> symbols_ok(#[trigger] l[i]),
    ensures
        printable(side_tokens(l)),
        starts_with_number(side_tokens(l)),
    decreases l.len(),
{
    if l.len() == 1 {
        lemma_unit_printable(l[0]);
    } else {
        let init = l.subrange(0, l.len() - 1);
        let u = l[l.len() - 1];
        assert(forall|i: int| 0 <= i < init.len() ==> init[i] == l[i]);
        assert(unit_tree(u) && symbols_ok(u));
        lemma_side_printable(init);
        lemma_unit_printable(u);
        let plus = seq![tok(Token::Plus)];
        assert(printable(plus));
        lemma_printable_concat(side_tokens(init), plus);
        lemma_printable_concat(side_tokens(init) + plus, node_tokens(u));
    }
}

pub proof fn lemma_equation_printable(l1: Seq<Tree>, l2: Seq<Tree>)
    requires
        l1.len() > 0,
        units(l1),
        forall|i: int| 0 <= i < l1.len() ==> symbols_ok(#[trigger] l1[i]),
        l2.len() > 0,
        units(l2),
        forall|i: int| 0 <= i < l2.len() ==> symbols_ok(#[trigger] l2[i]),
    ensures
        printable(side_tokens(l1) + seq![tok(Token::Yields)] + side_tokens(l2)),
{
    lemma_side_printable(l1);
    lemma_side_printable(l2);
    let y = seq![tok(Token::Yields)];
    assert(printable(y));
    lemma_printable_concat(side_tokens(l1), y);
    lemma_printable_concat(side_tokens(l1) + y, side_tokens(l2));
}

pub proof fn lemma_tree_printable(t: Tree)
    requires
        result_tree(t),
        symbols_ok(t),
    ensures
        printable(node_tokens(t)),
{
    if unit_tree(t) {
        lemma_unit_printable(t);
    } else if let Tree::Equation(rb, pb) = t {
        let l1 = rb->Reactants_0;
        let l2 = pb->Products_0;
        assert(*rb == Tree::Reactants(l1));
        assert(*pb == Tree::Products(l2));
        assert(symbols_ok(*rb) && symbols_ok(*pb));
        lemma_equation_printable(l1, l2);
        assert(node_tokens(*rb) == side_tokens(l1));
        assert(node_tokens(*pb) == side_tokens(l2));
        assert(node_tokens(t) == side_tokens(l1) + seq![tok(Token::Yields)] + side_tokens(l2));
    }
}

/// Whether every element token of a sequence has a well-formed symbol.
pub open spec fn element_symbols_ok(items: Seq<Result<Token, LexError>>) -> bool {
    forall|i: int| 0 <= i < items.len() ==> (#[trigger] items[i] matches Ok(Token::Element(sym)) ==> valid_symbol(sym))
}

pub proof fn lemma_lex_symbols(s: Seq<char>, p: int)
    ensures
        element_symbols_ok(lex_items(s, p)),
    decreases s.len() - p,
{
    crate::lexer::lemma_lex_step_advances(s, p);
    if let Some((Ok(t), q)) = lex_step(s, p) {
        lemma_lex_symbols(s, q);
        let all = lex_items(s, p);
        let tail = lex_items(s, q);
        assert(all == seq![Ok::<Token, LexError>(t)] + tail);
        assert forall|i: int| 0 <= i < all.len() implies (#[trigger] all[i] matches Ok(Token::Element(sym)) ==> valid_symbol(sym)) by {
            if i > 0 {
                assert(all[i] == tail[i - 1]);
            } else if let Token::Element(sym) = t {
                assert(sym[0] == s[p]);
                if sym.len() == 2 {
                    assert(sym[1] == s[p + 1]);
                }
            }
        }
    }
}

pub open spec fn stack_symbols_ok(st: Seq<Tree>) -> bool {
    forall|i: int| 0 <= i < st.len() ==> symbols_ok(#[trigger] st[i])
}

pub proof fn lemma_replace_top(st: Seq<Tree>, x: Tree)
    requires
        st.len() > 0,
        stack_symbols_ok(st.drop_last()),
        symbols_ok(x),
    ensures
        stack_symbols_ok(st.drop_last().push(x)),
{
    let s2 = st.drop_last().push(x);
    assert forall|i: int| 0 <= i < s2.len() implies symbols_ok(#[trigger] s2[i]) by {
        if i < s2.len() - 1 {
            assert(s2[i] == st.drop_last()[i]);
        }
    }
}

pub proof fn lemma_push_child(ch: Seq<Tree>, c: Tree)
    requires
        forall|i: int| 0 <= i < ch.len() ==> symbols_ok(#[trigger] ch[i]),
        symbols_ok(c),
    ensures
        forall|i: int| 0 <= i < ch.push(c).len() ==> symbols_ok(#[trigger] ch.push(c)[i]),
{
    assert forall|i: int| 0 <= i < ch.push(c).len() implies symbols_ok(#[trigger] ch.push(c)[i]) by {
        if i < ch.len() {
            assert(ch.push(c)[i] == ch[i]);
        }
    }
}

pub proof fn lemma_step_symbols(t: Token, la: Option<u16>, st: Seq<Tree>, d: nat)
    requires
        stack_symbols_ok(st),
        t matches Token::Element(sym) ==> valid_symbol(sym),
    ensures
        step(t, la, st, d) matches Ok((s2, _, _)) ==> stack_symbols_ok(s2),
{
    if st.len() > 0 {
        let top = st.last();
        let rest = st.drop_last();
        assert(symbols_ok(top));
        assert(stack_symbols_ok(rest)) by {
            assert forall|i: int| 0 <= i < rest.len() implies symbols_ok(#[trigger] rest[i]) by {
                assert(rest[i] == st[i]);
            }
        }
        if let Ok((s2, _, _)) = step(t, la, st, d) {
            assert(symbols_ok(fresh_unit()));
            match t {
                Token::Number(n) => {
                    lemma_replace_top(st, s2.last());
                    assert(s2 == rest.push(s2.last()));
                },
                Token::Element(sym) => {
                    let ch = top->FormulaUnit_1;
                    let e = Tree::Element(crate::parser::subscript_of(la), sym);
                    lemma_push_child(ch, e);
                    lemma_replace_top(st, s2.last());
                    assert(s2 == rest.push(s2.last()));
                },
                Token::Paren(ParenType::OPEN) => {
                    assert(symbols_ok(Tree::Group(1, Seq::empty())));
                    lemma_replace_top(st.push(Tree::Group(1, Seq::empty())), Tree::Group(1, Seq::empty()));
                    assert(st.push(Tree::Group(1, Seq::empty())).drop_last() == st);
                },
                Token::Paren(ParenType::CLOSE) => {
                    let g = Tree::Group(crate::parser::subscript_of(la), top->Group_1);
                    assert(symbols_ok(g));
                    let p = rest.last();
                    assert(symbols_ok(p));
                    let pc = if p is Group { p->Group_1 } else { p->FormulaUnit_1 };
                    lemma_push_child(pc, g);
                    assert(stack_symbols_ok(rest.drop_last())) by {
                        assert forall|i: int| 0 <= i < rest.drop_last().len() implies symbols_ok(#[trigger] rest.drop_last()[i]) by {
                            assert(rest.drop_last()[i] == rest[i]);
                        }
                    }
                    lemma_replace_top(rest, s2.last());
                    assert(s2 == rest.drop_last().push(s2.last()));
                },
                Token::Plus => {
                    if rest.len() == 0 {
                        lemma_push_child(Seq::empty(), top);
                        assert(seq![top] == Seq::<Tree>::empty().push(top));
                        assert(symbols_ok(Tree::Reactants(seq![top])));
                        assert(stack_symbols_ok(s2)) by {
                            assert forall|i: int| 0 <= i < s2.len() implies symbols_ok(#[trigger] s2[i]) by {}
                        }
                    } else {
                        let side = rest.last();
                        assert(symbols_ok(side));
                        let l = if side is Reactants { side->Reactants_0 } else { side->Products_0 };
                        lemma_push_child(l, top);
                        assert(stack_symbols_ok(rest.drop_last())) by {
                            assert forall|i: int| 0 <= i < rest.drop_last().len() implies symbols_ok(#[trigger] rest.drop_last()[i]) by {
                                assert(rest.drop_last()[i] == rest[i]);
                            }
                        }
                        lemma_replace_top(rest, s2[s2.len() - 2]);
                        let s1 = rest.drop_last().push(s2[s2.len() - 2]);
                        assert(s2 == s1.push(fresh_unit()));
                        lemma_replace_top(s1.push(fresh_unit()), fresh_unit());
                        assert(s1.push(fresh_unit()).drop_last() == s1);
                    }
                },
                Token::Yields => {
                    assert(symbols_ok(Tree::Products(Seq::empty())));
                    if rest.len() == 0 {
                        lemma_push_child(Seq::empty(), top);
                        assert(seq![top] == Seq::<Tree>::empty().push(top));
                        assert(symbols_ok(Tree::Reactants(seq![top])));
                        assert(stack_symbols_ok(s2)) by {
                            assert forall|i: int| 0 <= i < s2.len() implies symbols_ok(#[trigger] s2[i]) by {}
                        }
                    } else {
                        let side = rest.last();
                        assert(symbols_ok(side));
                        let l = side->Reactants_0;
                        lemma_push_child(l, top);
                        assert(stack_symbols_ok(rest.drop_last())) by {
                            assert forall|i: int| 0 <= i < rest.drop_last().len() implies symbols_ok(#[trigger] rest.drop_last()[i]) by {
                                assert(rest.drop_last()[i] == rest[i]);
                            }
                        }
                        let r = Tree::Reactants(l.push(top));
                        lemma_replace_top(rest, r);
                        let s1 = rest.drop_last().push(r);
                        assert(s2 == s1.push(Tree::Products(Seq::empty())).push(fresh_unit()));
                        lemma_replace_top(s1.push(Tree::Products(Seq::empty())), Tree::Products(Seq::empty()));
                        assert(s1.push(Tree::Products(Seq::empty())).drop_last() == s1);
                        let s3 = s1.push(Tree::Products(Seq::empty()));
                        lemma_replace_top(s3.push(fresh_unit()), fresh_unit());
                        assert(s3.push(fresh_unit()).drop_last() == s3);
                    }
                },
            }
        }
    }
}

pub proof fn lemma_run_symbols(items: Seq<Result<Token, LexError>>, st: Seq<Tree>, d: nat)
    requires
        stack_symbols_ok(st),
        element_symbols_ok(items),
    ensures
        run(items, st, d) matches Ok(t) ==> symbols_ok(t),
    decreases items.len(),
{
    if items.len() == 0 {
        if st.len() == 3 && st[0] is Reactants && st[1] is Products && st[2] is FormulaUnit {
            assert(symbols_ok(st[0]) && symbols_ok(st[1]) && symbols_ok(st[2]));
            lemma_push_child(st[1]->Products_0, st[2]);
            let pt = Tree::Products(st[1]->Products_0.push(st[2]));
            assert(symbols_ok(pt));
            assert(symbols_ok(Tree::Equation(Box::new(st[0]), Box::new(pt))));
        } else if st.len() == 1 {
            assert(symbols_ok(st[0]));
        }
    } else if let Ok(t) = items[0] {
        let rest = items.drop_first();
        assert(t matches Token::Element(sym) ==> valid_symbol(sym));
        lemma_step_symbols(t, lookahead(rest), st, d);
        assert(element_symbols_ok(rest)) by {
            assert forall|i: int| 0 <= i < rest.len() implies (#[trigger] rest[i] matches Ok(Token::Element(sym)) ==> valid_symbol(sym)) by {
                assert(rest[i] == items[i + 1]);
            }
        }
        if let Ok((s2, d2, took)) = step(t, lookahead(rest), st, d) {
            if took && rest.len() > 0 {
                let r2 = rest.drop_first();
                assert(element_symbols_ok(r2)) by {
                    assert forall|i: int| 0 <= i < r2.len() implies (#[trigger] r2[i] matches Ok(Token::Element(sym)) ==> valid_symbol(sym)) by {
                        assert(r2[i] == rest[i + 1]);
                    }
                }
                lemma_run_symbols(r2, s2, d2);
            } else {
                lemma_run_symbols(rest, s2, d2);
            }
        }
    }
}

/// The canonical text of a tree: every subscript and coefficient written
/// out, units of a side joined by `+`, sides by `->`.
pub open spec fn tree_text(t: Tree) -> Seq<char> {
    items_text(node_tokens(t))
}

/// Writing a parsed tree back as canonical text and parsing that text again
/// gives the same tree.
pub proof fn parse_print_round_trip(s: Seq<char>)
    ensures
        parse_text(s) matches Ok(t) ==> parse_text(tree_text(t)) == Ok::<Tree, Error>(t),
{
    let items = lex_items(s, 0);
    if let Ok(t) = parse_text(s) {
        parse_result_is_well_formed(items);
        lemma_lex_symbols(s, 0);
        assert(stack_symbols_ok(parser_start())) by {
            assert(symbols_ok(fresh_unit()));
        }
        lemma_run_symbols(items, parser_start(), 0);
        lemma_tree_printable(t);
        lemma_lex_printable(node_tokens(t));
        canonical_tokens_parse_back(t);
    }
}

pub proof fn lemma_items_text_concat(a: Seq<Result<Token, LexError>>, b: Seq<Result<Token, LexError>>)
    ensures
        items_text(a + b) == items_text(a) + items_text(b),
    decreases a.len(),
{
    if a.len() == 0 {
        assert(a + b =~= b);
        assert(items_text(a) =~= Seq::<char>::empty());
        assert(Seq::<char>::empty() + items_text(b) =~= items_text(b));
    } else {
        assert((a + b).drop_first() =~= a.drop_first() + b);
        assert((a + b)[0] == a[0]);
        lemma_items_text_concat(a.drop_first(), b);
        match a[0] {
            Ok(t) => {
                assert(token_text(t) + (items_text(a.drop_first()) + items_text(b)) =~= (token_text(t)
                    + items_text(a.drop_first())) + items_text(b));
            },
            Err(_) => {},
        }
    }
}

pub proof fn lemma_items_text_one(t: Token)
    ensures
        items_text(seq![tok(t)]) == token_text(t),
{
    let x = seq![tok(t)];
    assert(x.drop_first() =~= Seq::<Result<Token, LexError>>::empty());
    assert(items_text(x.drop_first()) == Seq::<char>::empty());
    assert(token_text(t) + Seq::<char>::empty() =~= token_text(t));
}

/// Appends the decimal digits of `n`.
fn write_decimal(n: u16, out: &mut String)
    ensures
        final(out)@ == old(out)@ + decimal(n as nat),
    decreases n,
{
    if n >= 10 {
        write_decimal(n / 10, out);
    }
    let d = (n % 10) as usize;
    let digits = "0123456789";
    proof {
        reveal_strlit("0123456789");
    }
    let one = digits.substring_char(d, d + 1);
    let ghost before = out@;
    out.append(one);
    proof {
        assert(one@ =~= seq![digit_char(d as nat)]);
        if n >= 10 {
            assert(decimal(n as nat) == decimal((n / 10) as nat).push(digit_char((n % 10) as nat)));
        }
        assert(final(out)@ =~= old(out)@ + decimal(n as nat));
    }
}

fn write_str(out: &mut String, s: &str)
    ensures
        final(out)@ == old(out)@ + s@,
{
    out.append(s);
}

impl Node {
    /// Appends the canonical text of the tree: every subscript and
    /// coefficient written out, units joined by `+`, sides by `->`.
    pub fn write_formula(&self, out: &mut String)
        ensures
            final(out)@ == old(out)@ + tree_text(self.tree()),
        decreases self,
    {
        match self {
            Node::Element(n, sym) => {
                let ghost o0 = out@;
                write_str(out, sym.as_str());
                write_decimal(*n, out);
                proof {
                    lemma_items_text_one(Token::Element(sym@));
                    lemma_items_text_one(Token::Number(*n));
                    lemma_items_text_concat(seq![tok(Token::Element(sym@))], seq![tok(Token::Number(*n))]);
                    assert(seq![tok(Token::Element(sym@))] + seq![tok(Token::Number(*n))] =~= node_tokens(self.tree()));
                    assert(final(out)@ =~= o0 + tree_text(self.tree()));
                }
            },
            Node::Group(n, ch) => {
                let ghost o0 = out@;
                write_str(out, "(");
                proof { reveal_strlit("("); reveal_strlit(")"); }
                let ghost o1 = out@;
                Self::write_children(ch, out);
                write_str(out, ")");
                write_decimal(*n, out);
                proof {
                    let open = seq![tok(Token::Paren(ParenType::OPEN))];
                    let mid = children_tokens(trees_of(ch@));
                    let close = seq![tok(Token::Paren(ParenType::CLOSE)), tok(Token::Number(*n))];
                    lemma_items_text_one(Token::Paren(ParenType::OPEN));
                    lemma_items_text_one(Token::Paren(ParenType::CLOSE));
                    lemma_items_text_one(Token::Number(*n));
                    lemma_items_text_concat(seq![tok(Token::Paren(ParenType::CLOSE))], seq![tok(Token::Number(*n))]);
                    assert(seq![tok(Token::Paren(ParenType::CLOSE))] + seq![tok(Token::Number(*n))] =~= close);
                    lemma_items_text_concat(open, mid);
                    lemma_items_text_concat(open + mid, close);
                    assert(final(out)@ =~= o0 + tree_text(self.tree()));
                }
            },
            Node::FormulaUnit(c, ch) => {
                let ghost o0 = out@;
                write_decimal(*c, out);
                Self::write_children(ch, out);
                proof {
                    lemma_items_text_one(Token::Number(*c));
                    lemma_items_text_concat(seq![tok(Token::Number(*c))], children_tokens(trees_of(ch@)));
                    assert(final(out)@ =~= o0 + tree_text(self.tree()));
                }
            },
            Node::Reactants(l) => {
                Self::write_side(l, out);
            },
            Node::Products(l) => {
                Self::write_side(l, out);
            },
            Node::Equation(r, p) => {
                let ghost o0 = out@;
                r.write_formula(out);
                write_str(out, "->");
                proof { reveal_strlit("->"); }
                p.write_formula(out);
                proof {
                    lemma_items_text_one(Token::Yields);
                    assert("->"@ =~= seq!['-', '>']);
                    lemma_items_text_concat(node_tokens(r.tree()), seq![tok(Token::Yields)]);
                    lemma_items_text_concat(node_tokens(r.tree()) + seq![tok(Token::Yields)], node_tokens(p.tree()));
                    assert(final(out)@ =~= o0 + tree_text(self.tree()));
                }
            },
        }
    }

    fn write_children(ch: &Vec<Node>, out: &mut String)
        ensures
            final(out)@ == old(out)@ + items_text(children_tokens(trees_of(ch@))),
        decreases ch@, 0int,
    {
        let ghost o0 = out@;
        let mut i: usize = 0;
        proof {
            assert(trees_of(ch@).subrange(0, 0) =~= Seq::<Tree>::empty());
            assert(items_text(Seq::<Result<Token, LexError>>::empty()) =~= Seq::<char>::empty());
        }
        while i < ch.len()
            invariant
                i <= ch@.len(),
                out@ == o0 + items_text(children_tokens(trees_of(ch@).subrange(0, i as int))),
            decreases ch@.len() - i,
        {
            let ghost before = out@;
            assert(decreases_to!(ch@ => ch@[i as int]));
            ch[i].write_formula(out);
            proof {
                let ts = trees_of(ch@);
                let pre = ts.subrange(0, i as int + 1);
                assert(pre.subrange(0, pre.len() - 1) =~= ts.subrange(0, i as int));
                assert(pre[pre.len() - 1] == ch@[i as int].tree());
                lemma_items_text_concat(children_tokens(ts.subrange(0, i as int)), node_tokens(ch@[i as int].tree()));
            }
            i = i + 1;
        }
        proof {
            assert(trees_of(ch@).subrange(0, ch@.len() as int) =~= trees_of(ch@));
        }
    }

    fn write_side(l: &Vec<Node>, out: &mut String)
        ensures
            final(out)@ == old(out)@ + items_text(side_tokens(trees_of(l@))),
        decreases l@, 0int,
    {
        let ghost o0 = out@;
        let mut i: usize = 0;
        proof {
            assert(trees_of(l@).subrange(0, 0) =~= Seq::<Tree>::empty());
            assert(items_text(Seq::<Result<Token, LexError>>::empty()) =~= Seq::<char>::empty());
            reveal_strlit("+");
        }
        while i < l.len()
            invariant
                i <= l@.len(),
                out@ == o0 + items_text(side_tokens(trees_of(l@).subrange(0, i as int))),
            decreases l@.len() - i,
        {
            let ghost before = out@;
            if i > 0 {
                write_str(out, "+");
            }
            let ghost mid = out@;
            assert(decreases_to!(l@ => l@[i as int]));
            l[i].write_formula(out);
            proof {
                let ts = trees_of(l@);
                let pre = ts.subrange(0, i as int + 1);
                let init = ts.subrange(0, i as int);
                assert(pre.subrange(0, pre.len() - 1) =~= init);
                assert(pre[pre.len() - 1] == l@[i as int].tree());
                let u = node_tokens(l@[i as int].tree());
                if i == 0 {
                    assert(side_tokens(pre) == u);
                    assert(init =~= Seq::<Tree>::empty());
                    assert(items_text(side_tokens(init)) =~= Seq::<char>::empty());
                    assert(before =~= o0);
                } else {
                    reveal_strlit("+");
                    let plus = seq![tok(Token::Plus)];
                    assert(side_tokens(pre) == side_tokens(init) + plus + u);
                    lemma_items_text_one(Token::Plus);
                    lemma_items_text_concat(side_tokens(init), plus);
                    lemma_items_text_concat(side_tokens(init) + plus, u);
                }
                assert(out@ =~= o0 + items_text(side_tokens(pre)));
            }
            i = i + 1;
        }
        proof {
            assert(trees_of(l@).subrange(0, l@.len() as int) =~= trees_of(l@));
        }
    }

    /// The canonical text of the tree.
    pub fn formula_text(&self) -> (r: String)
        ensures
            r@ == tree_text(self.tree()),
    {
        let mut out = String::new();
        self.write_formula(&mut out);
        assert(out@ =~= tree_text(self.tree()));
        out
    }
}

} // verus!
