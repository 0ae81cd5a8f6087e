use std::collections::HashMap;

use truth_table::evaluator::{evaluate, evaluate_postfix, EvalError, Expr, Operator};
use truth_table::parser::Token;

fn assignment(pairs: &[(u8, bool)]) -> HashMap<u8, bool> {
    let mut vars = HashMap::new();
    for (name, value) in pairs {
        vars.insert(*name, *value);
    }
    vars
}

#[test]
fn evaluator_test_single_var() {
    let expr1 = Expr::Variable(b'A');
    let expr2 = Expr::Variable(b'B');

    let mut vars = HashMap::new();
    vars.insert(b'A', true);
    vars.insert(b'B', false);

    assert_eq!(evaluate(&expr1, &vars), Ok(true));
    assert_eq!(evaluate(&expr2, &vars), Ok(false));
}

#[test]
fn test_not_var() {
    let expr1 = Expr::Not(&Expr::Variable(b'A'));

    let mut vars = HashMap::new();
    vars.insert(b'A', true);

    assert_eq!(evaluate(&expr1, &vars), Ok(false));
}

#[test]
fn test_missing_var() {
    let expr1 = Expr::Not(&Expr::Variable(b'A'));

    let mut vars = HashMap::new();
    vars.insert(b'B', true);

    assert!(evaluate(&expr1, &vars).is_err());
}

#[test]
fn test_simple_subexpr() {
    let expr = Expr::SubExpr {
        l: &Expr::Not(&Expr::Variable(b'A')),
        o: Operator::And,
        r: &Expr::Variable(b'B'),
    };

    let mut vars = HashMap::new();
    vars.insert(b'A', false);
    vars.insert(b'B', true);
    assert_eq!(evaluate(&expr, &vars), Ok(true));
}

#[test]
fn test_nested_sub_expr() {
    // ~(A v (D -> R)) & (~~B -> C)
    let expr = Expr::SubExpr {
        l: &Expr::Not(&Expr::SubExpr {
            l: &Expr::Variable(b'A'),
            o: Operator::Or,
            r: &Expr::SubExpr {
                l: &Expr::Variable(b'D'),
                o: Operator::Imp,
                r: &Expr::Variable(b'R'),
            },
        }),
        o: Operator::And,
        r: &Expr::SubExpr {
            l: &Expr::Not(&Expr::Not(&Expr::Variable(b'B'))),
            o: Operator::Imp,
            r: &Expr::Variable(b'C'),
        },
    };

    let mut vars = HashMap::new();
    vars.insert(b'A', false);
    vars.insert(b'B', true);
    vars.insert(b'C', false);
    vars.insert(b'D', false);
    vars.insert(b'R', false);
    assert_eq!(evaluate(&expr, &vars), Ok(false));
}

#[test]
fn missing_variable_is_named() {
    let expr = Expr::Not(&Expr::Variable(b'A'));
    let vars = assignment(&[(b'B', true)]);
    assert_eq!(evaluate(&expr, &vars), Err(EvalError::UndefinedVariable(b'A')));
}

#[test]
fn tree_reports_leftmost_missing_variable() {
    let expr = Expr::SubExpr {
        l: &Expr::Variable(b'P'),
        o: Operator::Or,
        r: &Expr::Variable(b'Q'),
    };
    assert_eq!(evaluate(&expr, &assignment(&[])), Err(EvalError::UndefinedVariable(b'P')));
    assert_eq!(
        evaluate(&expr, &assignment(&[(b'P', true)])),
        Err(EvalError::UndefinedVariable(b'Q'))
    );
}

#[test]
fn operators_have_their_truth_tables() {
    for l in [false, true] {
        for r in [false, true] {
            assert_eq!(Operator::And.apply(l, r), l && r);
            assert_eq!(Operator::Or.apply(l, r), l || r);
            assert_eq!(Operator::Imp.apply(l, r), !l || r);
        }
    }
    assert_eq!(Operator::Imp.apply(true, false), false);
    assert_eq!(Operator::Imp.apply(false, false), true);
}

#[test]
fn tree_implication_is_material() {
    let expr = Expr::SubExpr {
        l: &Expr::Variable(b'A'),
        o: Operator::Imp,
        r: &Expr::Variable(b'B'),
    };
    for l in [false, true] {
        for r in [false, true] {
            let vars = assignment(&[(b'A', l), (b'B', r)]);
            assert_eq!(evaluate(&expr, &vars), Ok(!l || r));
        }
    }
}

#[test]
fn tree_double_negation_is_identity() {
    let expr = Expr::Not(&Expr::Not(&Expr::Variable(b'X')));
    for b in [false, true] {
        assert_eq!(evaluate(&expr, &assignment(&[(b'X', b)])), Ok(b));
    }
}

#[test]
fn postfix_binary_operators() {
    let a = Token::Variable(b'A');
    let b = Token::Variable(b'B');
    for l in [false, true] {
        for r in [false, true] {
            let vars = assignment(&[(b'A', l), (b'B', r)]);
            assert_eq!(evaluate_postfix(&vec![a, b, Token::LogicalAnd], &vars), Ok(l && r));
            assert_eq!(evaluate_postfix(&vec![a, b, Token::LogicalOr], &vars), Ok(l || r));
            assert_eq!(evaluate_postfix(&vec![a, b, Token::LogicalImp], &vars), Ok(!l || r));
        }
    }
}

#[test]
fn postfix_implication_takes_left_operand_from_below() {
    let vars = assignment(&[]);
    let tokens = vec![Token::Value(true), Token::Value(false), Token::LogicalImp];
    assert_eq!(evaluate_postfix(&tokens, &vars), Ok(false));
    let tokens = vec![Token::Value(false), Token::Value(true), Token::LogicalImp];
    assert_eq!(evaluate_postfix(&tokens, &vars), Ok(true));
}

#[test]
fn postfix_double_negation_is_identity() {
    let tokens = vec![Token::Variable(b'X'), Token::LogicalNot, Token::LogicalNot];
    for b in [false, true] {
        assert_eq!(evaluate_postfix(&tokens, &assignment(&[(b'X', b)])), Ok(b));
    }
}

#[test]
fn postfix_negation_of_value() {
    let vars = assignment(&[]);
    assert_eq!(evaluate_postfix(&vec![Token::Value(true), Token::LogicalNot], &vars), Ok(false));
    assert_eq!(evaluate_postfix(&vec![Token::Value(false), Token::LogicalNot], &vars), Ok(true));
}

#[test]
fn postfix_mixed_operands() {
    let vars = assignment(&[(b'A', true)]);
    let tokens = vec![Token::Variable(b'A'), Token::Value(false), Token::LogicalOr];
    assert_eq!(evaluate_postfix(&tokens, &vars), Ok(true));
    let tokens = vec![Token::Value(false), Token::Variable(b'A'), Token::LogicalAnd];
    assert_eq!(evaluate_postfix(&tokens, &vars), Ok(false));
}

#[test]
fn postfix_single_value() {
    assert_eq!(evaluate_postfix(&vec![Token::Value(true)], &assignment(&[])), Ok(true));
}

#[test]
fn postfix_bare_variable_is_left_unresolved() {
    let vars = assignment(&[(b'A', true)]);
    assert_eq!(
        evaluate_postfix(&vec![Token::Variable(b'A')], &vars),
        Err(EvalError::NonValueLeft(b'A'))
    );
}

#[test]
fn postfix_empty_sequence() {
    assert_eq!(evaluate_postfix(&vec![], &assignment(&[])), Err(EvalError::EmptyStack));
}

#[test]
fn postfix_extra_operands() {
    let tokens = vec![Token::Value(true), Token::Value(false)];
    assert_eq!(evaluate_postfix(&tokens, &assignment(&[])), Err(EvalError::ExtraOperands));
}

#[test]
fn postfix_too_few_operands() {
    let vars = assignment(&[(b'A', true)]);
    assert_eq!(
        evaluate_postfix(&vec![Token::Variable(b'A'), Token::LogicalAnd], &vars),
        Err(EvalError::TooFewOperands)
    );
    assert_eq!(evaluate_postfix(&vec![Token::LogicalOr], &vars), Err(EvalError::TooFewOperands));
    assert_eq!(evaluate_postfix(&vec![Token::LogicalNot], &vars), Err(EvalError::TooFewOperands));
}

#[test]
fn postfix_brackets_are_refused() {
    let vars = assignment(&[]);
    assert_eq!(
        evaluate_postfix(&vec![Token::Value(true), Token::OpenParen], &vars),
        Err(EvalError::InvalidToken(Token::OpenParen))
    );
    assert_eq!(
        evaluate_postfix(&vec![Token::ClosedParen], &vars),
        Err(EvalError::InvalidToken(Token::ClosedParen))
    );
}

#[test]
fn postfix_undefined_variables() {
    let a = Token::Variable(b'A');
    let b = Token::Variable(b'B');
    let tokens = vec![a, b, Token::LogicalAnd];
    assert_eq!(
        evaluate_postfix(&tokens, &assignment(&[(b'A', true)])),
        Err(EvalError::UndefinedVariable(b'B'))
    );
    assert_eq!(
        evaluate_postfix(&tokens, &assignment(&[(b'B', true)])),
        Err(EvalError::UndefinedVariable(b'A'))
    );
    assert_eq!(
        evaluate_postfix(&tokens, &assignment(&[])),
        Err(EvalError::UndefinedVariables(b'A', b'B'))
    );
    assert_eq!(
        evaluate_postfix(&vec![a, Token::LogicalNot], &assignment(&[])),
        Err(EvalError::UndefinedVariable(b'A'))
    );
    assert_eq!(
        evaluate_postfix(&vec![Token::Value(true), b, Token::LogicalOr], &assignment(&[])),
        Err(EvalError::UndefinedVariable(b'B'))
    );
}

#[test]
fn postfix_first_error_wins() {
    let tokens = vec![Token::LogicalNot, Token::OpenParen];
    assert_eq!(evaluate_postfix(&tokens, &assignment(&[])), Err(EvalError::TooFewOperands));
}

#[test]
fn postfix_can_be_evaluated_again() {
    let tokens = vec![Token::Variable(b'A'), Token::Variable(b'B'), Token::LogicalAnd];
    assert_eq!(evaluate_postfix(&tokens, &assignment(&[(b'A', true), (b'B', true)])), Ok(true));
    assert_eq!(evaluate_postfix(&tokens, &assignment(&[(b'A', true), (b'B', false)])), Ok(false));
    assert_eq!(evaluate_postfix(&tokens, &assignment(&[(b'A', true), (b'B', true)])), Ok(true));
}
