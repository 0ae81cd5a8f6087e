//! Truth values of formulas under an assignment of their variables.
//!
//! A formula comes either as a tree ([`Expr`], evaluated by [`evaluate`]) or as
//! a postfix token sequence (evaluated by [`evaluate_postfix`] on an operand
//! stack). An assignment is a map from variable names to truth values. A
//! variable is looked up only when an operator consumes it, so a postfix
//! sequence that ends with a bare variable on the stack has no value.

use crate::parser::Token;
use std::collections::HashMap;
use vstd::prelude::*;

verus! {

/// A binary connective.
#[derive(Clone, Copy, Debug, PartialEq, Eq, Structural)]
pub enum Operator {
    And,
    Or,
    Imp,
}

impl Operator {
    /// The truth table of the connective; `Imp` is material implication.
    pub open spec fn apply_spec(self, l: bool, r: bool) -> bool {
        match self {
            Operator::And => l && r,
            Operator::Or => l || r,
            Operator::Imp => !l || r,
        }
    }

    /// Applies the connective to two truth values.
    #[verifier::when_used_as_spec(apply_spec)]
    pub fn apply(self, l: bool, r: bool) -> (b: bool)
        ensures
            b == self.apply_spec(l, r),
    {
        match self {
            Operator::And => l && r,
            Operator::Or => l || r,
            Operator::Imp => !(l && !r),
        }
    }
}

/// A formula as a tree.
#[derive(Debug)]
pub enum Expr<'a> {
    SubExpr { l: &'a Expr<'a>, o: Operator, r: &'a Expr<'a> },
    Variable(u8),
    Not(&'a Expr<'a>),
}

/// Why a formula has no value.
#[derive(Clone, Copy, Debug, PartialEq, Eq)]
pub enum EvalError {
    /// The assignment does not define this variable.
    UndefinedVariable(u8),
    /// A binary operator met two variables, left and right, neither of which
    /// the assignment defines.
    UndefinedVariables(u8, u8),
    /// An operator found fewer operands on the stack than it takes.
    TooFewOperands,
    /// A bracket stands in the postfix sequence.
    InvalidToken(Token),
    /// The sequence ends with this variable on top of the stack, which no
    /// operator has consumed.
    NonValueLeft(u8),
    /// The sequence ends with nothing on the stack.
    EmptyStack,
    /// The sequence ends with a value on top of other operands.
    ExtraOperands,
}

/// What lies on the evaluator's stack: a variable not yet looked up, or a
/// truth value.
#[derive(Clone, Copy, Debug, PartialEq, Eq)]
pub enum Operand {
    Variable(u8),
    Value(bool),
}

/// The value of a tree: that of its variables under `vars`, combined by its
/// connectives. The left side of a connective is evaluated first, so of two
/// undefined variables the leftmost is the one reported.
pub open spec fn expr_value(expr: Expr, vars: Map<u8, bool>) -> Result<bool, EvalError>
    decreases expr,
{
    match expr {
        Expr::Variable(v) => if vars.contains_key(v) {
            Ok(vars[v])
        } else {
            Err(EvalError::UndefinedVariable(v))
        },
        Expr::Not(e) => match expr_value(*e, vars) {
            Ok(b) => Ok(!b),
            Err(e) => Err(e),
        },
        Expr::SubExpr { l, o, r } => match expr_value(*l, vars) {
            Err(e) => Err(e),
            Ok(a) => match expr_value(*r, vars) {
                Err(e) => Err(e),
                Ok(b) => Ok(o.apply_spec(a, b)),
            },
        },
    }
}

/// Evaluates a formula tree under `vars`.
pub fn evaluate(expr: &Expr, vars: &HashMap<u8, bool>) -> (r: Result<bool, EvalError>)
    ensures
        r == expr_value(*expr, vars@),
    decreases *expr,
{
    broadcast use vstd::std_specs::hash::group_hash_axioms;

    match expr {
        Expr::Not(e) => match evaluate(e, vars) {
            Ok(b) => Ok(!b),
            Err(e) => Err(e),
        },
        Expr::Variable(v) => match vars.get(v) {
            Some(b) => Ok(*b),
            None => Err(EvalError::UndefinedVariable(*v)),
        },
        Expr::SubExpr { l, o, r } => {
            let left_result = match evaluate(l, vars) {
                Ok(b) => b,
                Err(e) => { return Err(e); },
            };
            let right_result = match evaluate(r, vars) {
                Ok(b) => b,
                Err(e) => { return Err(e); },
            };
            Ok(o.apply(left_result, right_result))
        },
    }
}

/// The token of a connective.
pub open spec fn operator_token(o: Operator) -> Token {
    match o {
        Operator::And => Token::LogicalAnd,
        Operator::Or => Token::LogicalOr,
        Operator::Imp => Token::LogicalImp,
    }
}

/// The operand that a token puts on the stack, if it is one.
pub open spec fn operand_of(t: Token) -> Option<Operand> {
    match t {
        Token::Variable(v) => Some(Operand::Variable(v)),
        Token::Value(b) => Some(Operand::Value(b)),
        _ => None,
    }
}

/// The truth value of an operand, or the name of the variable that `vars`
/// does not define.
pub open spec fn resolve(operand: Operand, vars: Map<u8, bool>) -> Result<bool, u8> {
    match operand {
        Operand::Value(b) => Ok(b),
        Operand::Variable(v) => if vars.contains_key(v) {
            Ok(vars[v])
        } else {
            Err(v)
        },
    }
}

/// The stack after a connective has taken its two operands, the right one
/// from the top and the left one from below it.
pub open spec fn binary_step(stack: Seq<Operand>, o: Operator, vars: Map<u8, bool>) -> Result<
    Seq<Operand>,
    EvalError,
> {
    if stack.len() < 2 {
        Err(EvalError::TooFewOperands)
    } else {
        let right = stack[stack.len() - 1];
        let left = stack[stack.len() - 2];
        match (resolve(left, vars), resolve(right, vars)) {
            (Ok(l), Ok(r)) => Ok(
                stack.take(stack.len() - 2).push(Operand::Value(o.apply_spec(l, r))),
            ),
            (Err(a), Ok(_)) => Err(EvalError::UndefinedVariable(a)),
            (Ok(_), Err(b)) => Err(EvalError::UndefinedVariable(b)),
            (Err(a), Err(b)) => Err(EvalError::UndefinedVariables(a, b)),
        }
    }
}

/// The stack after a negation has taken its operand from the top.
pub open spec fn not_step(stack: Seq<Operand>, vars: Map<u8, bool>) -> Result<
    Seq<Operand>,
    EvalError,
> {
    if stack.len() < 1 {
        Err(EvalError::TooFewOperands)
    } else {
        match resolve(stack.last(), vars) {
            Ok(b) => Ok(stack.drop_last().push(Operand::Value(!b))),
            Err(v) => Err(EvalError::UndefinedVariable(v)),
        }
    }
}

/// The stack after one token: an operand is pushed as it is, an operator
/// replaces its operands by their result, a bracket is refused.
pub open spec fn eval_step(stack: Seq<Operand>, t: Token, vars: Map<u8, bool>) -> Result<
    Seq<Operand>,
    EvalError,
> {
    match t {
        Token::Variable(v) => Ok(stack.push(Operand::Variable(v))),
        Token::Value(b) => Ok(stack.push(Operand::Value(b))),
        Token::LogicalAnd => binary_step(stack, Operator::And, vars),
        Token::LogicalOr => binary_step(stack, Operator::Or, vars),
        Token::LogicalImp => binary_step(stack, Operator::Imp, vars),
        Token::LogicalNot => not_step(stack, vars),
        Token::OpenParen | Token::ClosedParen => Err(EvalError::InvalidToken(t)),
    }
}

/// The stack after all of `tokens`, taken from left to right, or the error of
/// the first token that fails.
pub open spec fn eval_run(stack: Seq<Operand>, tokens: Seq<Token>, vars: Map<u8, bool>) -> Result<
    Seq<Operand>,
    EvalError,
>
    decreases tokens.len(),
{
    if tokens.len() == 0 {
        Ok(stack)
    } else {
        match eval_step(stack, tokens.first(), vars) {
            Ok(next) => eval_run(next, tokens.drop_first(), vars),
            Err(e) => Err(e),
        }
    }
}

/// What a finished stack amounts to: the value on it, if that is all there is.
pub open spec fn verdict(stack: Seq<Operand>) -> Result<bool, EvalError> {
    if stack.len() == 0 {
        Err(EvalError::EmptyStack)
    } else {
        match stack.last() {
            Operand::Variable(v) => Err(EvalError::NonValueLeft(v)),
            Operand::Value(b) => if stack.len() == 1 {
                Ok(b)
            } else {
                Err(EvalError::ExtraOperands)
            },
        }
    }
}

/// The value of a postfix sequence under `vars`.
pub open spec fn postfix_value(tokens: Seq<Token>, vars: Map<u8, bool>) -> Result<bool, EvalError> {
    match eval_run(Seq::empty(), tokens, vars) {
        Ok(stack) => verdict(stack),
        Err(e) => Err(e),
    }
}

/// Looks an operand up in `vars`.
fn resolve_operand(operand: Operand, vars: &HashMap<u8, bool>) -> (r: Result<bool, u8>)
    ensures
        r == resolve(operand, vars@),
{
    broadcast use vstd::std_specs::hash::group_hash_axioms;

    match operand {
        Operand::Value(b) => Ok(b),
        Operand::Variable(v) => match vars.get(&v) {
            Some(b) => Ok(*b),
            None => Err(v),
        },
    }
}

/// Lets a connective take its two operands from the stack and leave its
/// result there.
fn apply_binary(stack: &mut Vec<Operand>, o: Operator, vars: &HashMap<u8, bool>) -> (r: Result<
    (),
    EvalError,
>)
    ensures
        match r {
            Ok(()) => binary_step(old(stack)@, o, vars@) == Ok::<Seq<Operand>, EvalError>(
                final(stack)@,
            ),
            Err(e) => binary_step(old(stack)@, o, vars@) == Err::<Seq<Operand>, EvalError>(e),
        },
{
    if stack.len() < 2 {
        return Err(EvalError::TooFewOperands);
    }
    let right = stack[stack.len() - 1];
    let left = stack[stack.len() - 2];
    let value = match (resolve_operand(left, vars), resolve_operand(right, vars)) {
        (Ok(l), Ok(r)) => o.apply(l, r),
        (Err(a), Ok(_)) => { return Err(EvalError::UndefinedVariable(a)); },
        (Ok(_), Err(b)) => { return Err(EvalError::UndefinedVariable(b)); },
        (Err(a), Err(b)) => { return Err(EvalError::UndefinedVariables(a, b)); },
    };
    stack.pop();
    stack.pop();
    stack.push(Operand::Value(value));
    proof {
        assert(stack@ =~= old(stack)@.take(old(stack)@.len() - 2).push(Operand::Value(value)));
    }
    Ok(())
}

/// Lets a negation take its operand from the stack and leave its result
/// there.
fn apply_not(stack: &mut Vec<Operand>, vars: &HashMap<u8, bool>) -> (r: Result<(), EvalError>)
    ensures
        match r {
            Ok(()) => not_step(old(stack)@, vars@) == Ok::<Seq<Operand>, EvalError>(final(stack)@),
            Err(e) => not_step(old(stack)@, vars@) == Err::<Seq<Operand>, EvalError>(e),
        },
{
    if stack.len() < 1 {
        return Err(EvalError::TooFewOperands);
    }
    let top = stack[stack.len() - 1];
    match resolve_operand(top, vars) {
        Ok(b) => {
            stack.pop();
            stack.push(Operand::Value(!b));
            Ok(())
        },
        Err(v) => Err(EvalError::UndefinedVariable(v)),
    }
}

/// Evaluates a postfix sequence under `vars`.
///
/// The sequence must leave exactly one truth value on the stack. A variable
/// is looked up when an operator takes it, and not before.
pub fn evaluate_postfix(expr: &Vec<Token>, vars: &HashMap<u8, bool>) -> (r: Result<
    bool,
    EvalError,
>)
    ensures
        r == postfix_value(expr@, vars@),
{
    let mut operand_stack: Vec<Operand> = Vec::new();
    let mut i: usize = 0;
    proof {
        assert(expr@.skip(0) =~= expr@);
    }
    while i < expr.len()
        invariant
            i <= expr@.len(),
            eval_run(operand_stack@, expr@.skip(i as int), vars@) == eval_run(
                Seq::empty(),
                expr@,
                vars@,
            ),
        decreases expr@.len() - i,
    {
        let t = expr[i];
        proof {
            assert(expr@.skip(i as int).first() == t);
            assert(expr@.skip(i as int).drop_first() =~= expr@.skip(i + 1));
        }
        match t {
            Token::Variable(v) => operand_stack.push(Operand::Variable(v)),
            Token::Value(b) => operand_stack.push(Operand::Value(b)),
            Token::LogicalOr => match apply_binary(&mut operand_stack, Operator::Or, vars) {
                Ok(()) => {},
                Err(e) => { return Err(e); },
            },
            Token::LogicalAnd => match apply_binary(&mut operand_stack, Operator::And, vars) {
                Ok(()) => {},
                Err(e) => { return Err(e); },
            },
            Token::LogicalImp => match apply_binary(&mut operand_stack, Operator::Imp, vars) {
                Ok(()) => {},
                Err(e) => { return Err(e); },
            },
            Token::LogicalNot => match apply_not(&mut operand_stack, vars) {
                Ok(()) => {},
                Err(e) => { return Err(e); },
            },
            Token::OpenParen | Token::ClosedParen => {
                return Err(EvalError::InvalidToken(t));
            },
        }
        i += 1;
    }
    proof {
        assert(expr@.skip(i as int) =~= Seq::<Token>::empty());
    }
    match operand_stack.pop() {
        Some(Operand::Value(v)) => if operand_stack.len() == 0 {
            Ok(v)
        } else {
            Err(EvalError::ExtraOperands)
        },
        Some(Operand::Variable(v)) => Err(EvalError::NonValueLeft(v)),
        None => Err(EvalError::EmptyStack),
    }
}

/// Evaluating two sequences in turn is evaluating both at once.
pub proof fn lemma_eval_run_concat(
    stack: Seq<Operand>,
    first: Seq<Token>,
    second: Seq<Token>,
    vars: Map<u8, bool>,
)
    ensures
        eval_run(stack, first + second, vars) == match eval_run(stack, first, vars) {
            Ok(next) => eval_run(next, second, vars),
            Err(e) => Err(e),
        },
    decreases first.len(),
{
    if first.len() == 0 {
        assert(first + second =~= second);
    } else {
        assert((first + second).first() == first.first());
        assert((first + second).drop_first() =~= first.drop_first() + second);
        match eval_step(stack, first.first(), vars) {
            Ok(next) => lemma_eval_run_concat(next, first.drop_first(), second, vars),
            Err(_) => {},
        }
    }
}

/// Evaluating one more token is one more step.
pub proof fn lemma_eval_run_push(
    stack: Seq<Operand>,
    tokens: Seq<Token>,
    t: Token,
    vars: Map<u8, bool>,
)
    ensures
        eval_run(stack, tokens.push(t), vars) == match eval_run(stack, tokens, vars) {
            Ok(next) => eval_step(next, t, vars),
            Err(e) => Err(e),
        },
{
    lemma_eval_run_concat(stack, tokens, seq![t], vars);
    assert(tokens.push(t) =~= tokens + seq![t]);
    assert(seq![t].drop_first() =~= Seq::<Token>::empty());
    assert(seq![t].first() == t);
    match eval_run(stack, tokens, vars) {
        Ok(next) => {
            match eval_step(next, t, vars) {
                Ok(last) => {
                    assert(eval_run(last, Seq::<Token>::empty(), vars) == Ok::<
                        Seq<Operand>,
                        EvalError,
                    >(last));
                },
                Err(_) => {},
            }
        },
        Err(_) => {},
    }
}

/// The postfix form of a tree: the operands of a connective, left before
/// right, and then the connective.
pub open spec fn flatten(e: Expr) -> Seq<Token>
    decreases e,
{
    match e {
        Expr::Variable(v) => seq![Token::Variable(v)],
        Expr::Not(inner) => flatten(*inner).push(Token::LogicalNot),
        Expr::SubExpr { l, o, r } => (flatten(*l) + flatten(*r)).push(operator_token(o)),
    }
}

/// What the postfix form of a tree with a value leaves on the stack: a
/// variable as it is, anything else as its value.
pub open spec fn result_operand(e: Expr, vars: Map<u8, bool>) -> Operand {
    match e {
        Expr::Variable(v) => Operand::Variable(v),
        _ => Operand::Value(expr_value(e, vars)->Ok_0),
    }
}

/// The postfix form of a tree that has a value puts one operand on the stack,
/// whatever lies there already, and that operand has the value of the tree.
pub proof fn lemma_flatten_pushes_value(e: Expr, stack: Seq<Operand>, vars: Map<u8, bool>)
    requires
        expr_value(e, vars) is Ok,
    ensures
        eval_run(stack, flatten(e), vars) == Ok::<Seq<Operand>, EvalError>(
            stack.push(result_operand(e, vars)),
        ),
        resolve(result_operand(e, vars), vars) == Ok::<bool, u8>(expr_value(e, vars)->Ok_0),
    decreases e,
{
    match e {
        Expr::Variable(v) => {
            let tokens = flatten(e);
            assert(tokens.drop_first() =~= Seq::<Token>::empty());
            let next = stack.push(Operand::Variable(v));
            assert(eval_step(stack, tokens.first(), vars) == Ok::<Seq<Operand>, EvalError>(next));
            assert(eval_run(next, tokens.drop_first(), vars) == Ok::<Seq<Operand>, EvalError>(
                next,
            ));
        },
        Expr::Not(inner) => {
            lemma_flatten_pushes_value(*inner, stack, vars);
            lemma_eval_run_push(stack, flatten(*inner), Token::LogicalNot, vars);
            let next = stack.push(result_operand(*inner, vars));
            assert(next.drop_last() =~= stack);
        },
        Expr::SubExpr { l, o, r } => {
            lemma_flatten_pushes_value(*l, stack, vars);
            let after_left = stack.push(result_operand(*l, vars));
            lemma_flatten_pushes_value(*r, after_left, vars);
            let after_right = after_left.push(result_operand(*r, vars));
            lemma_eval_run_concat(stack, flatten(*l), flatten(*r), vars);
            lemma_eval_run_push(stack, flatten(*l) + flatten(*r), operator_token(o), vars);
            assert(after_right.take(after_right.len() - 2) =~= stack);
            let value = o.apply_spec(expr_value(*l, vars)->Ok_0, expr_value(*r, vars)->Ok_0);
            assert(binary_step(after_right, o, vars) == Ok::<Seq<Operand>, EvalError>(
                stack.push(Operand::Value(value)),
            ));
            match o {
                Operator::And => {},
                Operator::Or => {},
                Operator::Imp => {},
            }
        },
    }
}

/// The postfix form of a tree that has no value either fails, or the tree is
/// a single variable, which is put on the stack unresolved.
pub proof fn lemma_flatten_without_value(e: Expr, stack: Seq<Operand>, vars: Map<u8, bool>)
    requires
        expr_value(e, vars) is Err,
    ensures
        match eval_run(stack, flatten(e), vars) {
            Ok(next) => e is Variable && next == stack.push(Operand::Variable(e->Variable_0))
                && !vars.contains_key(e->Variable_0),
            Err(_) => true,
        },
    decreases e,
{
    match e {
        Expr::Variable(v) => {
            let tokens = flatten(e);
            assert(tokens.drop_first() =~= Seq::<Token>::empty());
            let next = stack.push(Operand::Variable(v));
            assert(eval_step(stack, tokens.first(), vars) == Ok::<Seq<Operand>, EvalError>(next));
            assert(eval_run(next, tokens.drop_first(), vars) == Ok::<Seq<Operand>, EvalError>(
                next,
            ));
        },
        Expr::Not(inner) => {
            lemma_flatten_without_value(*inner, stack, vars);
            lemma_eval_run_push(stack, flatten(*inner), Token::LogicalNot, vars);
        },
        Expr::SubExpr { l, o, r } => {
            lemma_eval_run_concat(stack, flatten(*l), flatten(*r), vars);
            lemma_eval_run_push(stack, flatten(*l) + flatten(*r), operator_token(o), vars);
            if expr_value(*l, vars) is Err {
                lemma_flatten_without_value(*l, stack, vars);
            } else {
                lemma_flatten_pushes_value(*l, stack, vars);
            }
            match eval_run(stack, flatten(*l), vars) {
                Ok(after_left) => {
                    if expr_value(*r, vars) is Err {
                        lemma_flatten_without_value(*r, after_left, vars);
                    } else {
                        lemma_flatten_pushes_value(*r, after_left, vars);
                    }
                    match eval_run(after_left, flatten(*r), vars) {
                        Ok(after_right) => {
                            assert(binary_step(after_right, o, vars) is Err);
                            match o {
                                Operator::And => {},
                                Operator::Or => {},
                                Operator::Imp => {},
                            }
                        },
                        Err(_) => {},
                    }
                },
                Err(_) => {},
            }
        },
    }
}

/// The two evaluators agree: the postfix form of a tree that is more than a
/// single variable has a value exactly if the tree has one, and then it is
/// the same value.
pub proof fn law_postfix_agrees_with_tree(e: Expr, vars: Map<u8, bool>)
    requires
        !(e is Variable),
    ensures
        postfix_value(flatten(e), vars) is Ok <==> expr_value(e, vars) is Ok,
        expr_value(e, vars) is Ok ==> postfix_value(flatten(e), vars) == expr_value(e, vars),
{
    let empty = Seq::<Operand>::empty();
    if expr_value(e, vars) is Ok {
        lemma_flatten_pushes_value(e, empty, vars);
    } else {
        lemma_flatten_without_value(e, empty, vars);
    }
}

/// The postfix form of a single variable has no value: the variable is left
/// on the stack unresolved.
pub proof fn law_postfix_of_variable_tree(x: u8, vars: Map<u8, bool>)
    ensures
        postfix_value(flatten(Expr::Variable(x)), vars) == Err::<bool, EvalError>(
            EvalError::NonValueLeft(x),
        ),
{
    let tokens = flatten(Expr::Variable(x));
    let next = Seq::<Operand>::empty().push(Operand::Variable(x));
    assert(tokens.drop_first() =~= Seq::<Token>::empty());
    assert(eval_step(Seq::empty(), tokens.first(), vars) == Ok::<Seq<Operand>, EvalError>(next));
    assert(eval_run(next, tokens.drop_first(), vars) == Ok::<Seq<Operand>, EvalError>(next));
}

} // verus!
