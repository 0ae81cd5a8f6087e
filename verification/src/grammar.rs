//! The formulas that the converter reads as they are meant.
//!
//! Every tree can be written as an infix token sequence in which a connective
//! joins a formula on its left to a factor on its right, a factor is an atom
//! or a negated atom, and an atom is a variable or a formula in brackets.
//! Of such a sequence the converter yields the postfix form of the tree, so
//! that evaluating what it yields gives the value of the tree.

use crate::blanks::{law_blanks_are_insignificant, without_blanks};
use crate::evaluator::{
    expr_value, flatten, law_postfix_agrees_with_tree, operator_token, postfix_value, Expr,
    Operator,
};
use crate::parser::{
    fault_at, first_fault, formula_postfix, formula_variables, infix_tokens, is_variable_byte,
    lemma_feed_concat, lemma_feed_push, lemma_infix_tokens_push, lemma_no_fault, postfix_of,
    ParseError, Token, Yard, AMPERSAND, CLOSED_PAREN, GREATER_THAN, HYPHEN, LOWER_V, OPEN_PAREN,
    TILDE,
};
use vstd::prelude::*;

verus! {

/// A tree written as an infix formula. Connectives associate to the left, so
/// only the right operand of a connective may need brackets.
pub open spec fn formula(e: Expr) -> Seq<Token>
    decreases e, 0int,
{
    match e {
        Expr::Variable(v) => seq![Token::Variable(v)],
        Expr::Not(inner) => seq![Token::LogicalNot] + atom(*inner),
        Expr::SubExpr { l, o, r } => formula(*l) + seq![operator_token(o)] + factor(*r),
    }
}

/// A tree written as the right operand of a connective: in brackets if it is
/// itself made with a connective.
pub open spec fn factor(e: Expr) -> Seq<Token>
    decreases e, 2int,
{
    match e {
        Expr::SubExpr { .. } => bracketed(e),
        _ => formula(e),
    }
}

/// A tree written as the operand of a negation: in brackets unless it is a
/// variable.
pub open spec fn atom(e: Expr) -> Seq<Token>
    decreases e, 2int,
{
    match e {
        Expr::Variable(v) => seq![Token::Variable(v)],
        _ => bracketed(e),
    }
}

/// A tree written as a formula in brackets.
pub open spec fn bracketed(e: Expr) -> Seq<Token>
    decreases e, 1int,
{
    seq![Token::OpenParen] + formula(e) + seq![Token::ClosedParen]
}

/// The part of a tree's postfix form that is emitted while its formula is
/// read.
pub open spec fn emitted(e: Expr) -> Seq<Token> {
    match e {
        Expr::Variable(v) => seq![Token::Variable(v)],
        Expr::Not(inner) => flatten(*inner),
        Expr::SubExpr { l, o, r } => match *r {
            Expr::Not(inner) => flatten(*l) + flatten(*inner),
            _ => flatten(*l) + flatten(*r),
        },
    }
}

/// The operators of a tree that still wait when its formula has been read,
/// the most recent one last.
pub open spec fn waiting(e: Expr) -> Seq<Token> {
    match e {
        Expr::Variable(v) => Seq::empty(),
        Expr::Not(inner) => seq![Token::LogicalNot],
        Expr::SubExpr { l, o, r } => match *r {
            Expr::Not(inner) => seq![operator_token(o), Token::LogicalNot],
            _ => seq![operator_token(o)],
        },
    }
}

/// Whether nothing waits above the nearest open bracket.
pub open spec fn is_clean(stack: Seq<Token>) -> bool {
    stack.len() == 0 || stack.last() == Token::OpenParen
}

/// What was emitted and what waits make up the postfix form, and no bracket
/// waits.
pub proof fn lemma_emitted_and_waiting(e: Expr)
    ensures
        emitted(e) + waiting(e).reverse() == flatten(e),
        forall|i: int| 0 <= i < waiting(e).len() ==> waiting(e)[i] != Token::OpenParen,
{
    match e {
        Expr::Variable(v) => {
            assert(emitted(e) + waiting(e).reverse() =~= flatten(e));
        },
        Expr::Not(inner) => {
            assert(emitted(e) + waiting(e).reverse() =~= flatten(e));
        },
        Expr::SubExpr { l, o, r } => {
            match o {
                Operator::And => {},
                Operator::Or => {},
                Operator::Imp => {},
            }
            match *r {
                Expr::Not(inner) => {
                    assert(waiting(e).reverse() =~= seq![Token::LogicalNot, operator_token(o)]);
                    assert(flatten(*r) == flatten(*inner).push(Token::LogicalNot));
                    assert(emitted(e) + waiting(e).reverse() =~= flatten(e));
                },
                _ => {
                    assert(waiting(e).reverse() =~= seq![operator_token(o)]);
                    assert(emitted(e) + waiting(e).reverse() =~= flatten(e));
                },
            }
        },
    }
}

/// Unwinding to the nearest open bracket emits what waits above it, top
/// first.
pub proof fn lemma_unwind_waiting(output: Seq<Token>, stack: Seq<Token>, above: Seq<Token>)
    requires
        is_clean(stack),
        forall|i: int| 0 <= i < above.len() ==> above[i] != Token::OpenParen,
    ensures
        (Yard { output, stack: stack + above }).unwind_to_paren() == (Yard {
            output: output + above.reverse(),
            stack,
        }),
    decreases above.len(),
{
    let yard = Yard { output, stack: stack + above };
    if above.len() == 0 {
        assert(stack + above =~= stack);
        assert(output + above.reverse() =~= output);
    } else {
        let top = above.last();
        assert(yard.stack.last() == top);
        assert(yard.stack.drop_last() =~= stack + above.drop_last());
        lemma_unwind_waiting(output.push(top), stack, above.drop_last());
        assert(above.reverse() =~= seq![top] + above.drop_last().reverse());
        assert(output.push(top) + above.drop_last().reverse() =~= output + above.reverse());
    }
}

/// Whether the formula of `e` may follow on a yard in which `stack` waits:
/// below a connective nothing but an open bracket may wait, and below a
/// negation no other negation.
pub open spec fn may_read(e: Expr, stack: Seq<Token>) -> bool {
    match e {
        Expr::SubExpr { .. } => is_clean(stack),
        _ => stack.len() == 0 || stack.last() != Token::LogicalNot,
    }
}

/// The yard with more emitted and more waiting.
pub open spec fn advanced(yard: Yard, emitted: Seq<Token>, waiting: Seq<Token>) -> Yard {
    Yard { output: yard.output + emitted, stack: yard.stack + waiting }
}

/// A step with a connective unwinds to the nearest open bracket and holds the
/// connective.
proof fn lemma_step_connective(yard: Yard, o: Operator)
    ensures
        yard.step(operator_token(o)) == yard.unwind_to_paren().hold(operator_token(o)),
{
    match o {
        Operator::And => {},
        Operator::Or => {},
        Operator::Imp => {},
    }
}

/// Feeding a single token is one step.
proof fn lemma_feed_one(yard: Yard, t: Token)
    ensures
        yard.feed(seq![t]) == yard.step(t),
{
    lemma_feed_push(yard, Seq::empty(), t);
    assert(yard.feed(Seq::empty()) == yard);
}

/// Reading the formula of a tree emits and holds what the tree says, and
/// leaves alone what waited before.
pub proof fn lemma_read_formula(e: Expr, yard: Yard)
    requires
        may_read(e, yard.stack),
    ensures
        yard.feed(formula(e)) == advanced(yard, emitted(e), waiting(e)),
    decreases e, 0int,
{
    match e {
        Expr::Variable(v) => {
            lemma_feed_one(yard, Token::Variable(v));
            assert(yard.step(Token::Variable(v)) =~= advanced(yard, emitted(e), waiting(e))) by {
                assert(yard.output.push(Token::Variable(v)) =~= yard.output + emitted(e));
                assert(yard.stack =~= yard.stack + waiting(e));
            }
        },
        Expr::Not(inner) => {
            let not = Token::LogicalNot;
            lemma_feed_concat(yard, seq![not], atom(*inner));
            lemma_feed_one(yard, not);
            let held = yard.hold(not);
            assert(yard.unwind_negations() == yard);
            lemma_read_atom(*inner, held);
            assert(advanced(held, flatten(*inner), Seq::empty()) =~= advanced(
                yard,
                emitted(e),
                waiting(e),
            )) by {
                assert(held.stack + Seq::<Token>::empty() =~= yard.stack + waiting(e));
            }
        },
        Expr::SubExpr { l, o, r } => {
            let op = operator_token(o);
            lemma_feed_concat(yard, formula(*l) + seq![op], factor(*r));
            lemma_feed_concat(yard, formula(*l), seq![op]);
            lemma_read_formula(*l, yard);
            let left = advanced(yard, emitted(*l), waiting(*l));
            lemma_feed_one(left, op);
            lemma_step_connective(left, o);
            lemma_emitted_and_waiting(*l);
            lemma_unwind_waiting(left.output, yard.stack, waiting(*l));
            let unwound = Yard { output: yard.output + flatten(*l), stack: yard.stack };
            assert(left.unwind_to_paren() =~= unwound) by {
                assert(left.output + waiting(*l).reverse() =~= yard.output + flatten(*l));
            }
            let held = unwound.hold(op);
            assert(held.stack.last() == op);
            assert(op != Token::LogicalNot) by {
                match o {
                    Operator::And => {},
                    Operator::Or => {},
                    Operator::Imp => {},
                }
            }
            lemma_read_factor(*r, held);
            match *r {
                Expr::SubExpr { .. } => {
                    assert(advanced(held, flatten(*r), Seq::empty()) =~= advanced(
                        yard,
                        emitted(e),
                        waiting(e),
                    )) by {
                        assert(held.output + flatten(*r) =~= yard.output + emitted(e));
                        assert(held.stack + Seq::<Token>::empty() =~= yard.stack + waiting(e));
                    }
                },
                Expr::Not(inner) => {
                    assert(advanced(held, emitted(*r), waiting(*r)) =~= advanced(
                        yard,
                        emitted(e),
                        waiting(e),
                    )) by {
                        assert(held.output + emitted(*r) =~= yard.output + emitted(e));
                        assert(held.stack + waiting(*r) =~= yard.stack + waiting(e));
                    }
                },
                Expr::Variable(v) => {
                    assert(advanced(held, emitted(*r), waiting(*r)) =~= advanced(
                        yard,
                        emitted(e),
                        waiting(e),
                    )) by {
                        assert(held.output + emitted(*r) =~= yard.output + emitted(e));
                        assert(held.stack + waiting(*r) =~= yard.stack + waiting(e));
                    }
                },
            }
        },
    }
}

/// Reading a formula in brackets emits the postfix form of its tree and
/// leaves alone what waited before, whatever that is.
pub proof fn lemma_read_bracketed(e: Expr, yard: Yard)
    ensures
        yard.feed(bracketed(e)) == advanced(yard, flatten(e), Seq::empty()),
    decreases e, 1int,
{
    let open = Token::OpenParen;
    let close = Token::ClosedParen;
    lemma_feed_concat(yard, seq![open] + formula(e), seq![close]);
    lemma_feed_concat(yard, seq![open], formula(e));
    lemma_feed_one(yard, open);
    let opened = yard.hold(open);
    lemma_read_formula(e, opened);
    let inside = advanced(opened, emitted(e), waiting(e));
    lemma_feed_one(inside, close);
    lemma_emitted_and_waiting(e);
    lemma_unwind_waiting(inside.output, opened.stack, waiting(e));
    let unwound = Yard { output: inside.output + waiting(e).reverse(), stack: opened.stack };
    assert(inside.unwind_to_paren() == unwound);
    assert(inside.close_group() =~= advanced(yard, flatten(e), Seq::empty())) by {
        assert(unwound.stack.drop_last() =~= yard.stack + Seq::<Token>::empty());
        assert(unwound.output =~= yard.output + flatten(e));
    }
}

/// Reading an atom emits the postfix form of its tree and leaves alone what
/// waited before, whatever that is.
pub proof fn lemma_read_atom(e: Expr, yard: Yard)
    ensures
        yard.feed(atom(e)) == advanced(yard, flatten(e), Seq::empty()),
    decreases e, 2int,
{
    match e {
        Expr::Variable(v) => {
            lemma_feed_one(yard, Token::Variable(v));
            assert(yard.step(Token::Variable(v)) =~= advanced(yard, flatten(e), Seq::empty())) by {
                assert(yard.output.push(Token::Variable(v)) =~= yard.output + flatten(e));
                assert(yard.stack =~= yard.stack + Seq::<Token>::empty());
            }
        },
        _ => {
            lemma_read_bracketed(e, yard);
        },
    }
}

/// Reading a factor below which no negation waits: a tree made with a
/// connective is emitted whole, any other as its formula is.
pub proof fn lemma_read_factor(e: Expr, yard: Yard)
    requires
        yard.stack.len() == 0 || yard.stack.last() != Token::LogicalNot,
    ensures
        yard.feed(factor(e)) == if e is SubExpr {
            advanced(yard, flatten(e), Seq::empty())
        } else {
            advanced(yard, emitted(e), waiting(e))
        },
    decreases e, 2int,
{
    match e {
        Expr::SubExpr { .. } => {
            lemma_read_bracketed(e, yard);
        },
        _ => {
            lemma_read_formula(e, yard);
        },
    }
}

/// The converter reads a formula as it is meant: what it makes of the infix
/// form of a tree is the postfix form of that tree.
pub proof fn law_formula_converts_to_postfix(e: Expr)
    ensures
        postfix_of(formula(e)) == flatten(e),
{
    let start = Yard::start();
    lemma_read_formula(e, start);
    lemma_emitted_and_waiting(e);
    let read = advanced(start, emitted(e), waiting(e));
    assert(read.output =~= emitted(e));
    assert(read.stack =~= waiting(e));
}

/// Brackets around a whole formula change nothing of what it converts to.
pub proof fn law_brackets_around_formula(e: Expr)
    ensures
        postfix_of(bracketed(e)) == postfix_of(formula(e)),
{
    let start = Yard::start();
    law_formula_converts_to_postfix(e);
    lemma_read_bracketed(e, start);
    let read = advanced(start, flatten(e), Seq::empty());
    assert(read.finish() =~= flatten(e));
}

/// Converting the formula of a tree and evaluating the result gives the
/// value of the tree, where the tree is more than a single variable and has a
/// value.
pub proof fn law_converted_formula_has_value_of_tree(e: Expr, vars: Map<u8, bool>)
    requires
        !(e is Variable),
    ensures
        postfix_value(postfix_of(formula(e)), vars) is Ok <==> expr_value(e, vars) is Ok,
        expr_value(e, vars) is Ok ==> postfix_value(postfix_of(formula(e)), vars) == expr_value(
            e,
            vars,
        ),
{
    law_formula_converts_to_postfix(e);
    law_postfix_agrees_with_tree(e, vars);
}

/// The bytes that a token is written with. A truth value cannot be written.
pub open spec fn spelling(t: Token) -> Seq<u8> {
    match t {
        Token::OpenParen => seq![OPEN_PAREN],
        Token::ClosedParen => seq![CLOSED_PAREN],
        Token::LogicalOr => seq![LOWER_V],
        Token::LogicalAnd => seq![AMPERSAND],
        Token::LogicalImp => seq![HYPHEN, GREATER_THAN],
        Token::LogicalNot => seq![TILDE],
        Token::Variable(v) => seq![v],
        Token::Value(_) => Seq::empty(),
    }
}

/// Whether a token can be written: a truth value cannot, and a variable only
/// if its name is an upper-case letter.
pub open spec fn can_be_written(t: Token) -> bool {
    match t {
        Token::Variable(v) => is_variable_byte(v),
        Token::Value(_) => false,
        _ => true,
    }
}

/// The bytes that a token sequence is written with, nothing between the
/// tokens.
pub open spec fn written(tokens: Seq<Token>) -> Seq<u8>
    decreases tokens.len(),
{
    if tokens.len() == 0 {
        Seq::empty()
    } else {
        written(tokens.drop_last()) + spelling(tokens.last())
    }
}

/// What is written has no fault, and reading it gives back the tokens.
pub proof fn lemma_written_reads_back(tokens: Seq<Token>)
    requires
        forall|i: int| 0 <= i < tokens.len() ==> can_be_written(#[trigger] tokens[i]),
    ensures
        forall|i: int| 0 <= i < written(tokens).len() ==> fault_at(written(tokens), i) is None,
        first_fault(written(tokens), 0) is None,
        infix_tokens(written(tokens)) == tokens,
    decreases tokens.len(),
{
    if tokens.len() > 0 {
        let before = written(tokens.drop_last());
        let last = tokens.last();
        let all = written(tokens);
        lemma_written_reads_back(tokens.drop_last());
        assert(can_be_written(tokens[tokens.len() - 1]));
        assert forall|i: int| 0 <= i < all.len() implies fault_at(all, i) is None by {
            if i < before.len() {
                assert(all[i] == before[i]);
                assert(fault_at(before, i) is None);
                if i + 1 < before.len() {
                    assert(all[i + 1] == before[i + 1]);
                }
                if i > 0 {
                    assert(all[i - 1] == before[i - 1]);
                }
            } else {
                assert(all[i] == spelling(last)[i - before.len()]);
                if last == Token::LogicalImp {
                    assert(all[before.len() as int] == HYPHEN);
                    assert(all[before.len() as int + 1] == GREATER_THAN);
                }
            }
        }
        if last == Token::LogicalImp {
            assert(all =~= before.push(HYPHEN).push(GREATER_THAN));
            lemma_infix_tokens_push(before, HYPHEN);
            lemma_infix_tokens_push(before.push(HYPHEN), GREATER_THAN);
        } else {
            let b = spelling(last)[0];
            assert(all =~= before.push(b));
            lemma_infix_tokens_push(before, b);
        }
        assert(infix_tokens(all) =~= tokens) by {
            assert(tokens =~= tokens.drop_last().push(last));
        }
    }
    lemma_no_fault(written(tokens), 0);
}

/// Whether every variable of a tree is named by an upper-case letter.
pub open spec fn names_are_letters(e: Expr) -> bool
    decreases e,
{
    match e {
        Expr::Variable(v) => is_variable_byte(v),
        Expr::Not(inner) => names_are_letters(*inner),
        Expr::SubExpr { l, o, r } => names_are_letters(*l) && names_are_letters(*r),
    }
}

/// Whether every token of a sequence can be written.
pub open spec fn all_can_be_written(tokens: Seq<Token>) -> bool {
    forall|i: int| 0 <= i < tokens.len() ==> can_be_written(#[trigger] tokens[i])
}

/// The formula of a tree whose variables are letters can be written, and so
/// can its factor, its atom and the formula in brackets.
pub proof fn lemma_formula_can_be_written(e: Expr)
    requires
        names_are_letters(e),
    ensures
        all_can_be_written(formula(e)),
        all_can_be_written(bracketed(e)),
        all_can_be_written(atom(e)),
        all_can_be_written(factor(e)),
    decreases e,
{
    match e {
        Expr::Variable(v) => {},
        Expr::Not(inner) => {
            lemma_formula_can_be_written(*inner);
        },
        Expr::SubExpr { l, o, r } => {
            lemma_formula_can_be_written(*l);
            lemma_formula_can_be_written(*r);
            match o {
                Operator::And => {},
                Operator::Or => {},
                Operator::Imp => {},
            }
        },
    }
}

/// The converter reads a written formula as it is meant: from the bytes of
/// the formula of a tree it yields the postfix form of that tree.
pub proof fn law_written_formula_converts_to_postfix(e: Expr)
    requires
        names_are_letters(e),
    ensures
        formula_postfix(written(formula(e))) == Ok::<Seq<Token>, ParseError>(flatten(e)),
{
    lemma_formula_can_be_written(e);
    lemma_written_reads_back(formula(e));
    law_formula_converts_to_postfix(e);
}

/// Converting the written formula of a tree and evaluating the result gives
/// the value of the tree, where the tree is more than a single variable and
/// has a value; where it has none, neither has the result.
pub proof fn law_written_formula_has_value_of_tree(e: Expr, vars: Map<u8, bool>)
    requires
        names_are_letters(e),
        !(e is Variable),
    ensures
        formula_postfix(written(formula(e))) is Ok,
        postfix_value(formula_postfix(written(formula(e)))->Ok_0, vars) is Ok <==> expr_value(
            e,
            vars,
        ) is Ok,
        expr_value(e, vars) is Ok ==> postfix_value(
            formula_postfix(written(formula(e)))->Ok_0,
            vars,
        ) == expr_value(e, vars),
{
    law_written_formula_converts_to_postfix(e);
    law_postfix_agrees_with_tree(e, vars);
}

/// The variables of a tree.
pub open spec fn variables_of(e: Expr) -> Set<u8>
    decreases e,
{
    match e {
        Expr::Variable(v) => set![v],
        Expr::Not(inner) => variables_of(*inner),
        Expr::SubExpr { l, o, r } => variables_of(*l).union(variables_of(*r)),
    }
}

/// The variables among the tokens of a sequence.
pub open spec fn token_variables(tokens: Seq<Token>) -> Set<u8> {
    Set::new(|v: u8| tokens.contains(Token::Variable(v)))
}

/// A sequence made of two contains what either of them contains.
proof fn lemma_contains_concat<A>(first: Seq<A>, second: Seq<A>, x: A)
    ensures
        (first + second).contains(x) <==> first.contains(x) || second.contains(x),
{
    let both = first + second;
    if both.contains(x) {
        let k = choose|k: int| 0 <= k < both.len() && both[k] == x;
        if k < first.len() {
            assert(first[k] == x);
        } else {
            assert(second[k - first.len()] == x);
        }
    }
    if first.contains(x) {
        let k = choose|k: int| 0 <= k < first.len() && first[k] == x;
        assert(both[k] == x);
    }
    if second.contains(x) {
        let k = choose|k: int| 0 <= k < second.len() && second[k] == x;
        assert(both[k + first.len()] == x);
    }
}

/// The variables among the tokens of two sequences joined.
proof fn lemma_token_variables_concat(first: Seq<Token>, second: Seq<Token>)
    ensures
        token_variables(first + second) == token_variables(first).union(token_variables(second)),
{
    assert forall|v: u8|
        token_variables(first + second).contains(v) <==> token_variables(first).contains(v)
            || token_variables(second).contains(v) by {
        lemma_contains_concat(first, second, Token::Variable(v));
    }
    assert(token_variables(first + second) =~= token_variables(first).union(
        token_variables(second),
    ));
}

/// The variables among a single token.
proof fn lemma_token_variables_one(t: Token)
    ensures
        token_variables(seq![t]) == match t {
            Token::Variable(v) => set![v],
            _ => Set::<u8>::empty(),
        },
{
    let one = seq![t];
    assert forall|v: u8| one.contains(Token::Variable(v)) <==> t == Token::Variable(v) by {
        if t == Token::Variable(v) {
            assert(one[0] == Token::Variable(v));
        }
    }
    match t {
        Token::Variable(v) => {
            assert(token_variables(one) =~= set![v]);
        },
        _ => {
            assert(token_variables(one) =~= Set::<u8>::empty());
        },
    }
}

/// The formula of a tree mentions the variables of the tree and no others,
/// with or without brackets around it.
pub proof fn lemma_formula_mentions_variables(e: Expr)
    ensures
        token_variables(formula(e)) == variables_of(e),
        token_variables(bracketed(e)) == variables_of(e),
        token_variables(atom(e)) == variables_of(e),
        token_variables(factor(e)) == variables_of(e),
    decreases e,
{
    let open = seq![Token::OpenParen];
    let close = seq![Token::ClosedParen];
    lemma_token_variables_one(Token::OpenParen);
    lemma_token_variables_one(Token::ClosedParen);
    lemma_token_variables_concat(open, formula(e));
    lemma_token_variables_concat(open + formula(e), close);
    match e {
        Expr::Variable(v) => {
            lemma_token_variables_one(Token::Variable(v));
        },
        Expr::Not(inner) => {
            lemma_formula_mentions_variables(*inner);
            lemma_token_variables_one(Token::LogicalNot);
            lemma_token_variables_concat(seq![Token::LogicalNot], atom(*inner));
            assert(token_variables(formula(e)) =~= variables_of(e));
        },
        Expr::SubExpr { l, o, r } => {
            lemma_formula_mentions_variables(*l);
            lemma_formula_mentions_variables(*r);
            let op = operator_token(o);
            lemma_token_variables_one(op);
            match o {
                Operator::And => {},
                Operator::Or => {},
                Operator::Imp => {},
            }
            lemma_token_variables_concat(formula(*l), seq![op]);
            lemma_token_variables_concat(formula(*l) + seq![op], factor(*r));
            assert(token_variables(formula(e)) =~= variables_of(e));
        },
    }
    assert(token_variables(bracketed(e)) =~= variables_of(e));
}

/// What is written mentions the variables among its tokens and no others.
pub proof fn lemma_written_mentions_variables(tokens: Seq<Token>)
    requires
        all_can_be_written(tokens),
    ensures
        formula_variables(written(tokens)) == token_variables(tokens),
    decreases tokens.len(),
{
    if tokens.len() == 0 {
        assert(formula_variables(written(tokens)) =~= token_variables(tokens));
    } else {
        let init = tokens.drop_last();
        let last = tokens.last();
        lemma_written_mentions_variables(init);
        assert(tokens =~= init + seq![last]);
        lemma_token_variables_concat(init, seq![last]);
        lemma_token_variables_one(last);
        assert(can_be_written(tokens[tokens.len() - 1]));
        assert forall|v: u8|
            formula_variables(written(tokens)).contains(v) <==> formula_variables(
                written(init),
            ).contains(v) || last == Token::Variable(v) by {
            lemma_contains_concat(written(init), spelling(last), v);
            if is_variable_byte(v) {
                if spelling(last).contains(v) {
                    let k = choose|k: int| 0 <= k < spelling(last).len() && spelling(last)[k] == v;
                    assert(last == Token::Variable(v));
                }
                if last == Token::Variable(v) {
                    assert(spelling(last)[0] == v);
                }
            }
        }
        assert(formula_variables(written(tokens)) =~= token_variables(tokens));
    }
}

/// The written formula of a tree mentions the variables of the tree and no
/// others.
pub proof fn law_written_formula_mentions_variables(e: Expr)
    requires
        names_are_letters(e),
    ensures
        formula_variables(written(formula(e))) == variables_of(e),
{
    lemma_formula_can_be_written(e);
    lemma_written_mentions_variables(formula(e));
    lemma_formula_mentions_variables(e);
}

/// The converter reads a formula with blanks as it is meant: bytes that
/// convert at all and that are, but for blanks, the written formula of a tree
/// convert to the postfix form of that tree and mention its variables.
pub proof fn law_spaced_formula_converts_to_postfix(e: Expr, bytes: Seq<u8>)
    requires
        names_are_letters(e),
        formula_postfix(bytes) is Ok,
        without_blanks(bytes) == written(formula(e)),
    ensures
        formula_postfix(bytes) == Ok::<Seq<Token>, ParseError>(flatten(e)),
        formula_variables(bytes) == variables_of(e),
{
    law_blanks_are_insignificant(bytes);
    law_written_formula_converts_to_postfix(e);
    law_written_formula_mentions_variables(e);
}

/// Brackets around a whole formula change nothing of what it converts to,
/// with or without blanks.
pub proof fn law_brackets_around_spaced_formula(e: Expr, plain: Seq<u8>, wrapped: Seq<u8>)
    requires
        names_are_letters(e),
        formula_postfix(plain) is Ok,
        formula_postfix(wrapped) is Ok,
        without_blanks(plain) == written(formula(e)),
        without_blanks(wrapped) == written(bracketed(e)),
    ensures
        formula_postfix(wrapped) == formula_postfix(plain),
{
    law_spaced_formula_converts_to_postfix(e, plain);
    law_blanks_are_insignificant(wrapped);
    lemma_formula_can_be_written(e);
    lemma_written_reads_back(bracketed(e));
    law_brackets_around_formula(e);
    law_formula_converts_to_postfix(e);
}

} // verus!
