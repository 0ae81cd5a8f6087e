use std::collections::HashSet;

use truth_table::parser::{parse_formulas, shunting_yard, ParseError, Token};

fn postfix(formula: &str) -> Vec<Token> {
    shunting_yard(formula).unwrap().0
}

#[test]
fn parser_test_single_var() {
    let expr = "A";
    let result = shunting_yard(expr);
    assert!(result.is_ok());
    let (tokens, vars) = result.unwrap();
    assert_eq!(tokens, vec![Token::Variable(b'A')]);
    assert!(vars.contains(&b'A'));
    assert_eq!(vars.len(), 1);
}

#[test]
fn test_simple_expr1() {
    let expr = "A -> B";
    let result = shunting_yard(expr);
    assert!(result.is_ok());
    let (tokens, vars) = result.unwrap();
    assert_eq!(
        tokens,
        vec![
            Token::Variable(b'A'),
            Token::Variable(b'B'),
            Token::LogicalImp
        ]
    );
    assert!(vars.contains(&b'A'));
    assert!(vars.contains(&b'B'));
    assert_eq!(vars.len(), 2);
}

#[test]
fn test_simple_expr2() {
    let expr = "A v B";
    let result = shunting_yard(expr);
    assert!(result.is_ok());
    let (tokens, vars) = result.unwrap();
    assert_eq!(
        tokens,
        vec![Token::Variable(b'A'), Token::Variable(b'B'), Token::LogicalOr]
    );
    assert!(vars.contains(&b'A'));
    assert!(vars.contains(&b'B'));
    assert_eq!(vars.len(), 2);
}

#[test]
fn test_simple_expr3() {
    let expr = "C & D";
    let result = shunting_yard(expr);
    assert!(result.is_ok());
    let (tokens, vars) = result.unwrap();
    assert_eq!(
        tokens,
        vec![
            Token::Variable(b'C'),
            Token::Variable(b'D'),
            Token::LogicalAnd
        ]
    );
    assert!(vars.contains(&b'C'));
    assert!(vars.contains(&b'D'));
    assert_eq!(vars.len(), 2);
}

#[test]
fn test_invalid_imp() {
    let expr = "C - > D";
    let result = shunting_yard(expr);
    assert!(result.is_err());
}

#[test]
fn test_invalid_char() {
    let expr = "C -> ?";
    let result = shunting_yard(expr);
    assert!(result.is_err());
}

#[test]
fn token_from_byte() {
    assert_eq!(Token::from(b'('), Token::OpenParen);
    assert_eq!(Token::from(b')'), Token::ClosedParen);
    assert_eq!(Token::from(b'v'), Token::LogicalOr);
    assert_eq!(Token::from(b'&'), Token::LogicalAnd);
    assert_eq!(Token::from(b'>'), Token::LogicalImp);
    assert_eq!(Token::from(b'~'), Token::LogicalNot);
    assert_eq!(Token::from(b'A'), Token::Variable(b'A'));
    assert_eq!(Token::from(b'?'), Token::Variable(b'?'));
    assert_eq!(Token::from(b'-'), Token::Variable(b'-'));
}

#[test]
fn token_from_literal() {
    assert_eq!(Token::from(true), Token::Value(true));
    assert_eq!(Token::from(false), Token::Value(false));
}

#[test]
fn invalid_implication_names_the_hyphen() {
    assert_eq!(
        shunting_yard("C - > D").unwrap_err(),
        ParseError::IncompleteImplication { index: 2, found: Some(b' ') }
    );
}

#[test]
fn hyphen_at_the_end_is_refused() {
    assert_eq!(
        shunting_yard("A -").unwrap_err(),
        ParseError::IncompleteImplication { index: 2, found: None }
    );
}

#[test]
fn invalid_character_is_named_with_its_index() {
    assert_eq!(
        shunting_yard("C -> ?").unwrap_err(),
        ParseError::InvalidCharacter { character: b'?', index: 5 }
    );
}

#[test]
fn lower_case_letter_is_refused() {
    assert_eq!(
        shunting_yard("A & b").unwrap_err(),
        ParseError::InvalidCharacter { character: b'b', index: 4 }
    );
}

#[test]
fn bare_arrow_head_is_refused() {
    assert_eq!(
        shunting_yard("A > B").unwrap_err(),
        ParseError::InvalidCharacter { character: b'>', index: 2 }
    );
    assert_eq!(
        shunting_yard(">").unwrap_err(),
        ParseError::InvalidCharacter { character: b'>', index: 0 }
    );
}

#[test]
fn first_fault_is_reported() {
    assert_eq!(
        shunting_yard("A ? B - C").unwrap_err(),
        ParseError::InvalidCharacter { character: b'?', index: 2 }
    );
    assert_eq!(
        shunting_yard("A - B ? C").unwrap_err(),
        ParseError::IncompleteImplication { index: 2, found: Some(b' ') }
    );
}

#[test]
fn non_ascii_input_is_refused_at_its_first_byte() {
    assert_eq!(
        shunting_yard("A & \u{e9}").unwrap_err(),
        ParseError::InvalidCharacter { character: 0xc3, index: 4 }
    );
}

#[test]
fn empty_formula() {
    let (tokens, vars) = shunting_yard("").unwrap();
    assert_eq!(tokens, vec![]);
    assert!(vars.is_empty());
}

#[test]
fn blanks_are_ignored() {
    assert_eq!(postfix("  A   &B "), postfix("A & B"));
    assert_eq!(postfix("A->B"), postfix("A -> B"));
}

#[test]
fn brackets_around_a_formula_change_nothing() {
    assert_eq!(postfix("(A & B)"), postfix("A & B"));
    assert_eq!(
        postfix("(A & B)"),
        vec![Token::Variable(b'A'), Token::Variable(b'B'), Token::LogicalAnd]
    );
}

#[test]
fn binary_operators_associate_to_the_left() {
    assert_eq!(
        postfix("A & B v C"),
        vec![
            Token::Variable(b'A'),
            Token::Variable(b'B'),
            Token::LogicalAnd,
            Token::Variable(b'C'),
            Token::LogicalOr
        ]
    );
    assert_eq!(
        postfix("A -> B -> C"),
        vec![
            Token::Variable(b'A'),
            Token::Variable(b'B'),
            Token::LogicalImp,
            Token::Variable(b'C'),
            Token::LogicalImp
        ]
    );
}

#[test]
fn brackets_override_the_order() {
    assert_eq!(
        postfix("A & (B v C)"),
        vec![
            Token::Variable(b'A'),
            Token::Variable(b'B'),
            Token::Variable(b'C'),
            Token::LogicalOr,
            Token::LogicalAnd
        ]
    );
}

#[test]
fn negation_binds_tighter_than_binary_operators() {
    assert_eq!(
        postfix("A -> ~B"),
        vec![
            Token::Variable(b'A'),
            Token::Variable(b'B'),
            Token::LogicalNot,
            Token::LogicalImp
        ]
    );
    assert_eq!(
        postfix("~A & B"),
        vec![
            Token::Variable(b'A'),
            Token::LogicalNot,
            Token::Variable(b'B'),
            Token::LogicalAnd
        ]
    );
    assert_eq!(
        postfix("~(A & B)"),
        vec![
            Token::Variable(b'A'),
            Token::Variable(b'B'),
            Token::LogicalAnd,
            Token::LogicalNot
        ]
    );
}

#[test]
fn chained_negation_emits_the_earlier_one_first() {
    assert_eq!(
        postfix("~~A"),
        vec![Token::LogicalNot, Token::Variable(b'A'), Token::LogicalNot]
    );
    assert_eq!(
        postfix("~(~A)"),
        vec![Token::Variable(b'A'), Token::LogicalNot, Token::LogicalNot]
    );
}

#[test]
fn unmatched_closing_bracket_is_tolerated() {
    assert_eq!(postfix("A)"), vec![Token::Variable(b'A')]);
    assert_eq!(
        postfix("A & B) v C"),
        vec![
            Token::Variable(b'A'),
            Token::Variable(b'B'),
            Token::LogicalAnd,
            Token::Variable(b'C'),
            Token::LogicalOr
        ]
    );
}

#[test]
fn bracket_left_open_is_emitted() {
    assert_eq!(postfix("(A"), vec![Token::Variable(b'A'), Token::OpenParen]);
}

#[test]
fn variables_are_collected_once() {
    let (_, vars) = shunting_yard("(A & B) -> (B v A) & Z").unwrap();
    let expected: HashSet<u8> = [b'A', b'B', b'Z'].into_iter().collect();
    assert_eq!(vars, expected);
}

#[test]
fn lower_v_is_an_operator_and_upper_v_a_variable() {
    let (tokens, vars) = shunting_yard("V v V").unwrap();
    assert_eq!(
        tokens,
        vec![Token::Variable(b'V'), Token::Variable(b'V'), Token::LogicalOr]
    );
    assert_eq!(vars.len(), 1);
    assert!(vars.contains(&b'V'));
}

#[test]
fn formulas_are_parsed_together() {
    let (converted, vars) = parse_formulas(&["A -> B", "A", "C"]).unwrap();
    assert_eq!(converted, vec![postfix("A -> B"), postfix("A"), postfix("C")]);
    let expected: HashSet<u8> = [b'A', b'B', b'C'].into_iter().collect();
    assert_eq!(vars, expected);
}

#[test]
fn no_formulas_parse_to_nothing() {
    let (converted, vars) = parse_formulas(&[]).unwrap();
    assert!(converted.is_empty());
    assert!(vars.is_empty());
}

#[test]
fn first_refused_formula_ends_the_parse() {
    assert_eq!(
        parse_formulas(&["A", "B ?", "C -"]).unwrap_err(),
        ParseError::InvalidCharacter { character: b'?', index: 2 }
    );
}
