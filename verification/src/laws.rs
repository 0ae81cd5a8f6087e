//! What holds of formulas of some simple shapes: a single variable, an
//! implication, a negation written twice, an operand without a value.

use crate::evaluator::{
    binary_step, eval_run, eval_step, expr_value, lemma_eval_run_push, operand_of, operator_token,
    postfix_value, resolve, EvalError, Expr, Operand, Operator,
};
use crate::parser::{
    formula_postfix, formula_variables, infix_tokens, is_variable_byte, lemma_feed_push,
    lemma_infix_tokens_push, lemma_no_fault, postfix_of, ParseError, Token, Yard, CLOSED_PAREN,
    GREATER_THAN, HYPHEN, OPEN_PAREN, SPACE, TILDE,
};
use crate::table::invalidity_witness;
use vstd::prelude::*;

verus! {

/// The value of a variable as a tree is what the assignment gives it.
pub proof fn law_variable_tree(x: u8, vars: Map<u8, bool>)
    requires
        vars.contains_key(x),
    ensures
        expr_value(Expr::Variable(x), vars) == Ok::<bool, EvalError>(vars[x]),
{
}

/// A formula that is a single variable converts to that variable alone, and
/// the evaluator leaves it on the stack unresolved: the postfix form has no
/// value, whatever the assignment.
pub proof fn law_single_variable_formula(x: u8, vars: Map<u8, bool>)
    requires
        is_variable_byte(x),
    ensures
        formula_postfix(seq![x]) == Ok::<Seq<Token>, ParseError>(seq![Token::Variable(x)]),
        formula_variables(seq![x]) == set![x],
        postfix_value(seq![Token::Variable(x)], vars) == Err::<bool, EvalError>(
            EvalError::NonValueLeft(x),
        ),
{
    let bytes = seq![x];
    lemma_no_fault(bytes, 0);
    lemma_infix_tokens_push(Seq::empty(), x);
    assert(bytes =~= Seq::<u8>::empty().push(x));
    let tokens = seq![Token::Variable(x)];
    assert(infix_tokens(bytes) =~= tokens);
    lemma_feed_push(Yard::start(), Seq::empty(), Token::Variable(x));
    assert(tokens =~= Seq::<Token>::empty().push(Token::Variable(x)));
    assert(postfix_of(tokens) =~= tokens);
    assert(formula_variables(bytes) =~= set![x]) by {
        assert(bytes[0] == x);
    }
    assert(tokens.drop_first() =~= Seq::<Token>::empty());
    let stack = Seq::<Operand>::empty().push(Operand::Variable(x));
    assert(eval_step(Seq::empty(), tokens.first(), vars) == Ok::<Seq<Operand>, EvalError>(stack));
    assert(eval_run(stack, tokens.drop_first(), vars) == Ok::<Seq<Operand>, EvalError>(stack));
}

/// An implication of two truth values is false exactly if the left one is
/// true and the right one false.
pub proof fn law_implication_of_values(l: bool, r: bool, vars: Map<u8, bool>)
    ensures
        postfix_value(seq![Token::Value(l), Token::Value(r), Token::LogicalImp], vars) == Ok::<
            bool,
            EvalError,
        >(!l || r),
        postfix_value(seq![Token::Value(true), Token::Value(false), Token::LogicalImp], vars)
            == Ok::<bool, EvalError>(false),
{
    lemma_binary_of_values(Operator::Imp, l, r, vars);
    lemma_binary_of_values(Operator::Imp, true, false, vars);
}

/// A stack of two operands under a connective.
proof fn lemma_binary_step_of_two(
    left: Operand,
    right: Operand,
    o: Operator,
    vars: Map<u8, bool>,
)
    requires
        resolve(left, vars) is Ok,
        resolve(right, vars) is Ok,
    ensures
        eval_step(
            Seq::<Operand>::empty().push(left).push(right),
            operator_token(o),
            vars,
        ) == Ok::<Seq<Operand>, EvalError>(
            Seq::<Operand>::empty().push(
                Operand::Value(
                    o.apply_spec(resolve(left, vars)->Ok_0, resolve(right, vars)->Ok_0),
                ),
            ),
        ),
{
    let two = Seq::<Operand>::empty().push(left).push(right);
    assert(two.take(two.len() - 2) =~= Seq::<Operand>::empty());
    match o {
        Operator::And => {},
        Operator::Or => {},
        Operator::Imp => {},
    }
}

/// Two operands that have a value, followed by a connective, evaluate to what
/// the connective makes of their values.
proof fn lemma_binary_of_operands(o: Operator, left: Token, right: Token, vars: Map<u8, bool>)
    requires
        operand_of(left) is Some,
        operand_of(right) is Some,
        resolve(operand_of(left)->0, vars) is Ok,
        resolve(operand_of(right)->0, vars) is Ok,
    ensures
        postfix_value(seq![left, right, operator_token(o)], vars) == Ok::<bool, EvalError>(
            o.apply_spec(
                resolve(operand_of(left)->0, vars)->Ok_0,
                resolve(operand_of(right)->0, vars)->Ok_0,
            ),
        ),
{
    let none = Seq::<Token>::empty();
    let empty = Seq::<Operand>::empty();
    lemma_eval_run_push(empty, none, left, vars);
    lemma_eval_run_push(empty, none.push(left), right, vars);
    lemma_eval_run_push(empty, none.push(left).push(right), operator_token(o), vars);
    lemma_binary_step_of_two(operand_of(left)->0, operand_of(right)->0, o, vars);
    assert(eval_run(empty, none, vars) == Ok::<Seq<Operand>, EvalError>(empty));
    assert(seq![left, right, operator_token(o)] =~= none.push(left).push(right).push(
        operator_token(o),
    ));
}

/// Two truth values followed by a connective evaluate to what the connective
/// makes of them.
pub proof fn lemma_binary_of_values(o: Operator, l: bool, r: bool, vars: Map<u8, bool>)
    ensures
        postfix_value(seq![Token::Value(l), Token::Value(r), operator_token(o)], vars) == Ok::<
            bool,
            EvalError,
        >(o.apply_spec(l, r)),
{
    lemma_binary_of_operands(o, Token::Value(l), Token::Value(r), vars);
}

/// Two defined variables followed by a connective evaluate to what the
/// connective makes of their values.
pub proof fn lemma_binary_of_variables(o: Operator, a: u8, b: u8, vars: Map<u8, bool>)
    requires
        vars.contains_key(a),
        vars.contains_key(b),
    ensures
        postfix_value(seq![Token::Variable(a), Token::Variable(b), operator_token(o)], vars)
            == Ok::<bool, EvalError>(o.apply_spec(vars[a], vars[b])),
{
    lemma_binary_of_operands(o, Token::Variable(a), Token::Variable(b), vars);
}

/// The formula `a -> b` converts to `a b ->`, which is false exactly if `a`
/// is true and `b` false.
pub proof fn law_implication_formula(a: u8, b: u8, vars: Map<u8, bool>)
    requires
        is_variable_byte(a),
        is_variable_byte(b),
        vars.contains_key(a),
        vars.contains_key(b),
    ensures
        formula_postfix(seq![a, SPACE, HYPHEN, GREATER_THAN, SPACE, b]) == Ok::<
            Seq<Token>,
            ParseError,
        >(seq![Token::Variable(a), Token::Variable(b), Token::LogicalImp]),
        postfix_value(seq![Token::Variable(a), Token::Variable(b), Token::LogicalImp], vars)
            == Ok::<bool, EvalError>(!vars[a] || vars[b]),
{
    let bytes = seq![a, SPACE, HYPHEN, GREATER_THAN, SPACE, b];
    lemma_no_fault(bytes, 0);
    let none = Seq::<u8>::empty();
    lemma_infix_tokens_push(none, a);
    lemma_infix_tokens_push(none.push(a), SPACE);
    lemma_infix_tokens_push(none.push(a).push(SPACE), HYPHEN);
    lemma_infix_tokens_push(none.push(a).push(SPACE).push(HYPHEN), GREATER_THAN);
    lemma_infix_tokens_push(none.push(a).push(SPACE).push(HYPHEN).push(GREATER_THAN), SPACE);
    lemma_infix_tokens_push(
        none.push(a).push(SPACE).push(HYPHEN).push(GREATER_THAN).push(SPACE),
        b,
    );
    assert(bytes =~= none.push(a).push(SPACE).push(HYPHEN).push(GREATER_THAN).push(SPACE).push(
        b,
    ));
    assert(infix_tokens(bytes) =~= seq![
        Token::Variable(a),
        Token::LogicalImp,
        Token::Variable(b),
    ]);
    lemma_binary_formula_tokens(Operator::Imp, a, b);
    lemma_binary_of_variables(Operator::Imp, a, b, vars);
}

/// Two variables joined by a connective convert to the variables followed by
/// the connective.
pub proof fn lemma_binary_formula_tokens(o: Operator, a: u8, b: u8)
    ensures
        postfix_of(seq![Token::Variable(a), operator_token(o), Token::Variable(b)]) == seq![
            Token::Variable(a),
            Token::Variable(b),
            operator_token(o),
        ],
{
    let none = Seq::<Token>::empty();
    let start = Yard::start();
    let tokens = seq![Token::Variable(a), operator_token(o), Token::Variable(b)];
    assert(tokens =~= none.push(Token::Variable(a)).push(operator_token(o)).push(
        Token::Variable(b),
    ));
    lemma_feed_push(start, none, Token::Variable(a));
    lemma_feed_push(start, none.push(Token::Variable(a)), operator_token(o));
    lemma_feed_push(
        start,
        none.push(Token::Variable(a)).push(operator_token(o)),
        Token::Variable(b),
    );
    let first = Yard { output: none.push(Token::Variable(a)), stack: none };
    assert(start.feed(none) == start);
    assert(start.feed(none.push(Token::Variable(a))) == first);
    assert(first.unwind_to_paren() == first);
    let second = Yard { output: first.output, stack: none.push(operator_token(o)) };
    assert(first.step(operator_token(o)) == second) by {
        match o {
            Operator::And => {},
            Operator::Or => {},
            Operator::Imp => {},
        }
    }
    let after = Yard {
        output: none.push(Token::Variable(a)).push(Token::Variable(b)),
        stack: none.push(operator_token(o)),
    };
    assert(second.step(Token::Variable(b)) == after);
    assert(Yard::run(tokens) == after);
    assert(after.finish() =~= seq![Token::Variable(a), Token::Variable(b), operator_token(o)]);
}

/// An implication of two trees is false exactly if the left one is true and
/// the right one false.
pub proof fn law_implication_tree(l: Expr, r: Expr, vars: Map<u8, bool>)
    requires
        expr_value(l, vars) is Ok,
        expr_value(r, vars) is Ok,
    ensures
        expr_value(Expr::SubExpr { l: &l, o: Operator::Imp, r: &r }, vars) == Ok::<bool, EvalError>(
            !expr_value(l, vars)->Ok_0 || expr_value(r, vars)->Ok_0,
        ),
{
}

/// Negating a tree twice changes nothing: neither its value nor, where it has
/// none, its error.
pub proof fn law_double_negation_tree(e: Expr, vars: Map<u8, bool>)
    ensures
        expr_value(Expr::Not(&Expr::Not(&e)), vars) == expr_value(e, vars),
{
    assert(expr_value(Expr::Not(&e), vars) == match expr_value(e, vars) {
        Ok(b) => Ok::<bool, EvalError>(!b),
        Err(e) => Err(e),
    });
}

/// An operand that has a value, negated twice, evaluates to that value.
pub proof fn law_double_negation_postfix(operand: Token, vars: Map<u8, bool>)
    requires
        operand_of(operand) is Some,
        resolve(operand_of(operand)->0, vars) is Ok,
    ensures
        postfix_value(seq![operand, Token::LogicalNot, Token::LogicalNot], vars) == Ok::<
            bool,
            EvalError,
        >(resolve(operand_of(operand)->0, vars)->Ok_0),
{
    let none = Seq::<Token>::empty();
    let empty = Seq::<Operand>::empty();
    let value = resolve(operand_of(operand)->0, vars)->Ok_0;
    lemma_eval_run_push(empty, none, operand, vars);
    lemma_eval_run_push(empty, none.push(operand), Token::LogicalNot, vars);
    lemma_eval_run_push(
        empty,
        none.push(operand).push(Token::LogicalNot),
        Token::LogicalNot,
        vars,
    );
    assert(seq![operand, Token::LogicalNot, Token::LogicalNot] =~= none.push(operand).push(
        Token::LogicalNot,
    ).push(Token::LogicalNot));
    assert(eval_run(empty, none, vars) == Ok::<Seq<Operand>, EvalError>(empty));
    let first = empty.push(operand_of(operand)->0);
    assert(first.drop_last() =~= empty);
    let second = empty.push(Operand::Value(!value));
    assert(eval_step(first, Token::LogicalNot, vars) == Ok::<Seq<Operand>, EvalError>(second));
    assert(second.drop_last() =~= empty);
    assert(eval_step(second, Token::LogicalNot, vars) == Ok::<Seq<Operand>, EvalError>(
        empty.push(Operand::Value(value)),
    ));
}

/// Two negations written one after the other convert to a sequence that
/// begins with a negation, which has no value: the second negation sends the
/// first to the output before any operand. With the inner negation in
/// brackets the formula converts to the variable negated twice.
pub proof fn law_chained_negation_formula(x: u8, vars: Map<u8, bool>)
    requires
        is_variable_byte(x),
    ensures
        formula_postfix(seq![TILDE, TILDE, x]) == Ok::<Seq<Token>, ParseError>(
            seq![Token::LogicalNot, Token::Variable(x), Token::LogicalNot],
        ),
        postfix_value(seq![Token::LogicalNot, Token::Variable(x), Token::LogicalNot], vars)
            == Err::<bool, EvalError>(EvalError::TooFewOperands),
        formula_postfix(seq![TILDE, OPEN_PAREN, TILDE, x, CLOSED_PAREN]) == Ok::<
            Seq<Token>,
            ParseError,
        >(seq![Token::Variable(x), Token::LogicalNot, Token::LogicalNot]),
{
    let not = Token::LogicalNot;
    let var = Token::Variable(x);
    let no_bytes = Seq::<u8>::empty();
    let none = Seq::<Token>::empty();
    let start = Yard::start();
    assert(start.feed(none) == start);
    {
        let bytes = seq![TILDE, TILDE, x];
        assert(bytes =~= no_bytes.push(TILDE).push(TILDE).push(x));
        lemma_no_fault(bytes, 0);
        lemma_infix_tokens_push(no_bytes, TILDE);
        lemma_infix_tokens_push(no_bytes.push(TILDE), TILDE);
        lemma_infix_tokens_push(no_bytes.push(TILDE).push(TILDE), x);
        let tokens = none.push(not).push(not).push(var);
        assert(infix_tokens(bytes) == tokens);
        lemma_feed_push(start, none, not);
        lemma_feed_push(start, none.push(not), not);
        lemma_feed_push(start, none.push(not).push(not), var);
        assert(start.unwind_negations() == start);
        let first = Yard { output: none, stack: none.push(not) };
        assert(start.step(not) == first);
        let popped = Yard { output: none.push(not), stack: none };
        assert(first.emit_top() =~= popped) by {
            assert(first.stack.drop_last() =~= none);
        }
        assert(popped.unwind_negations() == popped);
        assert(first.unwind_negations() == popped);
        let second = Yard { output: none.push(not), stack: none.push(not) };
        assert(first.step(not) == second);
        let third = Yard { output: none.push(not).push(var), stack: none.push(not) };
        assert(second.step(var) == third);
        assert(third.finish() =~= seq![not, var, not]);
    }
    {
        let tokens = seq![not, var, not];
        assert(tokens.first() == not);
        assert(eval_step(Seq::<Operand>::empty(), not, vars) == Err::<Seq<Operand>, EvalError>(
            EvalError::TooFewOperands,
        ));
    }
    {
        let bytes = seq![TILDE, OPEN_PAREN, TILDE, x, CLOSED_PAREN];
        assert(bytes =~= no_bytes.push(TILDE).push(OPEN_PAREN).push(TILDE).push(x).push(
            CLOSED_PAREN,
        ));
        lemma_no_fault(bytes, 0);
        lemma_infix_tokens_push(no_bytes, TILDE);
        lemma_infix_tokens_push(no_bytes.push(TILDE), OPEN_PAREN);
        lemma_infix_tokens_push(no_bytes.push(TILDE).push(OPEN_PAREN), TILDE);
        lemma_infix_tokens_push(no_bytes.push(TILDE).push(OPEN_PAREN).push(TILDE), x);
        lemma_infix_tokens_push(
            no_bytes.push(TILDE).push(OPEN_PAREN).push(TILDE).push(x),
            CLOSED_PAREN,
        );
        let open = Token::OpenParen;
        let close = Token::ClosedParen;
        let tokens = none.push(not).push(open).push(not).push(var).push(close);
        assert(infix_tokens(bytes) == tokens);
        lemma_feed_push(start, none, not);
        lemma_feed_push(start, none.push(not), open);
        lemma_feed_push(start, none.push(not).push(open), not);
        lemma_feed_push(start, none.push(not).push(open).push(not), var);
        lemma_feed_push(start, none.push(not).push(open).push(not).push(var), close);
        assert(start.unwind_negations() == start);
        let first = Yard { output: none, stack: none.push(not) };
        assert(start.step(not) == first);
        let second = Yard { output: none, stack: none.push(not).push(open) };
        assert(first.step(open) == second);
        assert(second.unwind_negations() == second);
        let third = Yard { output: none, stack: none.push(not).push(open).push(not) };
        assert(second.step(not) == third);
        let fourth = Yard { output: none.push(var), stack: third.stack };
        assert(third.step(var) == fourth);
        let popped = Yard { output: none.push(var).push(not), stack: none.push(not).push(open) };
        assert(fourth.emit_top() =~= popped) by {
            assert(fourth.stack.drop_last() =~= none.push(not).push(open));
        }
        assert(popped.unwind_to_paren() == popped);
        assert(fourth.unwind_to_paren() == popped);
        let fifth = Yard { output: popped.output, stack: none.push(not) };
        assert(fourth.close_group() =~= fifth) by {
            assert(popped.stack.drop_last() =~= none.push(not));
        }
        assert(fourth.step(close) == fifth);
        assert(fifth.finish() =~= seq![var, not, not]);
    }
}

/// A conjunction whose right operand the assignment does not define has no
/// value, and the error names that operand.
pub proof fn law_undefined_right_operand(o: Operator, a: u8, b: u8, vars: Map<u8, bool>)
    requires
        vars.contains_key(a),
        !vars.contains_key(b),
    ensures
        postfix_value(seq![Token::Variable(a), Token::Variable(b), operator_token(o)], vars)
            == Err::<bool, EvalError>(EvalError::UndefinedVariable(b)),
{
    let none = Seq::<Token>::empty();
    let empty = Seq::<Operand>::empty();
    let left = Token::Variable(a);
    let right = Token::Variable(b);
    lemma_eval_run_push(empty, none, left, vars);
    lemma_eval_run_push(empty, none.push(left), right, vars);
    lemma_eval_run_push(empty, none.push(left).push(right), operator_token(o), vars);
    assert(eval_run(empty, none, vars) == Ok::<Seq<Operand>, EvalError>(empty));
    assert(seq![left, right, operator_token(o)] =~= none.push(left).push(right).push(
        operator_token(o),
    ));
    let two = empty.push(Operand::Variable(a)).push(Operand::Variable(b));
    assert(binary_step(two, o, vars) == Err::<Seq<Operand>, EvalError>(
        EvalError::UndefinedVariable(b),
    ));
    match o {
        Operator::And => {},
        Operator::Or => {},
        Operator::Imp => {},
    }
}

/// Modus ponens is valid: no assignment makes `p -> q` and `p` true and `q`
/// false, so a row with these three formulas is never a witness.
pub proof fn law_modus_ponens_has_no_witness(p: Expr, q: Expr, vars: Map<u8, bool>)
    requires
        expr_value(p, vars) is Ok,
        expr_value(q, vars) is Ok,
    ensures
        !invalidity_witness(
            seq![
                expr_value(Expr::SubExpr { l: &p, o: Operator::Imp, r: &q }, vars)->Ok_0,
                expr_value(p, vars)->Ok_0,
                expr_value(q, vars)->Ok_0,
            ],
        ),
{
    let results = seq![
        expr_value(Expr::SubExpr { l: &p, o: Operator::Imp, r: &q }, vars)->Ok_0,
        expr_value(p, vars)->Ok_0,
        expr_value(q, vars)->Ok_0,
    ];
    if !results.last() {
        assert(!results[0] || !results[1]);
    }
}

/// A disjunction does not give its left side: an assignment that makes `p`
/// false and `q` true is a witness against `p` following from `p v q`.
pub proof fn law_disjunction_has_a_witness(p: Expr, q: Expr, vars: Map<u8, bool>)
    requires
        expr_value(p, vars) == Ok::<bool, EvalError>(false),
        expr_value(q, vars) == Ok::<bool, EvalError>(true),
    ensures
        invalidity_witness(
            seq![
                expr_value(Expr::SubExpr { l: &p, o: Operator::Or, r: &q }, vars)->Ok_0,
                expr_value(p, vars)->Ok_0,
            ],
        ),
{
}

} // verus!
