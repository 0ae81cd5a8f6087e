use std::collections::{HashMap, HashSet};

use truth_table::evaluator::{evaluate_postfix, EvalError};
use truth_table::parser::{shunting_yard, ParseError, Token};
use truth_table::table::{
    bit_at, compute_row, evaluate_all, is_invalidity_witness, row_assignment, sorted_variables,
    tabulate, truth_table, Row, TableError,
};

fn evaluate_formula(formula: &str, pairs: &[(u8, bool)]) -> Result<bool, EvalError> {
    let (tokens, _) = shunting_yard(formula).unwrap();
    let mut vars = HashMap::new();
    for (name, value) in pairs {
        vars.insert(*name, *value);
    }
    evaluate_postfix(&tokens, &vars)
}

#[test]
fn bits_of_a_number() {
    assert!(!bit_at(0, 0));
    assert!(bit_at(1, 0));
    assert!(!bit_at(1, 1));
    assert!(!bit_at(2, 0));
    assert!(bit_at(2, 1));
    assert!(bit_at(5, 0));
    assert!(!bit_at(5, 1));
    assert!(bit_at(5, 2));
    assert!(!bit_at(5, 3));
    assert!(bit_at(1 << 20, 20));
    assert!(!bit_at(1 << 20, 19));
}

#[test]
fn bits_beyond_the_width_are_clear() {
    assert!(!bit_at(usize::MAX, usize::BITS as usize));
    assert!(!bit_at(usize::MAX, usize::MAX));
    assert!(bit_at(usize::MAX, usize::BITS as usize - 1));
}

#[test]
fn variables_are_sorted() {
    let set: HashSet<u8> = [b'Q', b'A', b'Z', b'B'].into_iter().collect();
    assert_eq!(sorted_variables(&set), vec![b'A', b'B', b'Q', b'Z']);
    assert_eq!(sorted_variables(&HashSet::new()), Vec::<u8>::new());
    let edges: HashSet<u8> = [255, 0].into_iter().collect();
    assert_eq!(sorted_variables(&edges), vec![0, 255]);
}

#[test]
fn first_row_makes_every_variable_true() {
    let vars = row_assignment(&vec![b'A', b'B', b'C'], 0);
    assert_eq!(vars.len(), 3);
    assert_eq!(vars[&b'A'], true);
    assert_eq!(vars[&b'B'], true);
    assert_eq!(vars[&b'C'], true);
}

#[test]
fn first_variable_changes_slowest() {
    let names = vec![b'A', b'B'];
    let expected = [(true, true), (true, false), (false, true), (false, false)];
    for (row, (a, b)) in expected.into_iter().enumerate() {
        let vars = row_assignment(&names, row);
        assert_eq!(vars[&b'A'], a);
        assert_eq!(vars[&b'B'], b);
    }
}

#[test]
fn repeated_name_takes_the_value_of_its_first_place() {
    let vars = row_assignment(&vec![b'A', b'A'], 1);
    assert_eq!(vars.len(), 1);
    assert_eq!(vars[&b'A'], true);
    let vars = row_assignment(&vec![b'A', b'A'], 2);
    assert_eq!(vars[&b'A'], false);
}

#[test]
fn witness_needs_true_premises_and_false_conclusion() {
    assert!(is_invalidity_witness(&vec![true, true, false]));
    assert!(is_invalidity_witness(&vec![false]));
    assert!(!is_invalidity_witness(&vec![true, false, false]));
    assert!(!is_invalidity_witness(&vec![true, true, true]));
    assert!(!is_invalidity_witness(&vec![true]));
    assert!(!is_invalidity_witness(&vec![]));
}

#[test]
fn all_formulas_of_a_row_are_evaluated() {
    let formulas = vec![
        shunting_yard("A -> B").unwrap().0,
        shunting_yard("~A").unwrap().0,
    ];
    let mut vars = HashMap::new();
    vars.insert(b'A', true);
    vars.insert(b'B', false);
    assert_eq!(evaluate_all(&formulas, &vars), Ok(vec![false, false]));
    vars.insert(b'A', false);
    assert_eq!(evaluate_all(&formulas, &vars), Ok(vec![true, true]));
}

#[test]
fn first_failing_formula_of_a_row_is_reported() {
    let formulas = vec![
        shunting_yard("A & A").unwrap().0,
        shunting_yard("B").unwrap().0,
        vec![],
    ];
    let mut vars = HashMap::new();
    vars.insert(b'A', true);
    vars.insert(b'B', true);
    assert_eq!(evaluate_all(&formulas, &vars), Err(EvalError::NonValueLeft(b'B')));
}

#[test]
fn single_row() {
    let formulas = vec![shunting_yard("A v B").unwrap().0, shunting_yard("~(~A)").unwrap().0];
    let row = compute_row(&formulas, &vec![b'A', b'B'], 2).unwrap();
    assert_eq!(row, Row { values: vec![false, true], results: vec![true, false], witness: true });
}

#[test]
fn implication_is_material() {
    for l in [false, true] {
        for r in [false, true] {
            assert_eq!(evaluate_formula("A -> B", &[(b'A', l), (b'B', r)]), Ok(!l || r));
        }
    }
    assert_eq!(evaluate_formula("A -> B", &[(b'A', true), (b'B', false)]), Ok(false));
}

#[test]
fn single_variable_formula_leaves_its_variable_unresolved() {
    assert_eq!(evaluate_formula("A", &[(b'A', true)]), Err(EvalError::NonValueLeft(b'A')));
}

#[test]
fn chained_negation_has_no_value() {
    assert_eq!(evaluate_formula("~~X", &[(b'X', true)]), Err(EvalError::TooFewOperands));
    assert_eq!(evaluate_formula("~(~X)", &[(b'X', true)]), Ok(true));
    assert_eq!(evaluate_formula("~(~X)", &[(b'X', false)]), Ok(false));
}

#[test]
fn undefined_variable_is_detected() {
    assert_eq!(
        evaluate_formula("A & B", &[(b'A', true)]),
        Err(EvalError::UndefinedVariable(b'B'))
    );
}

#[test]
fn implication_of_a_negation() {
    let (tokens, _) = shunting_yard("A -> ~B").unwrap();
    assert_eq!(
        tokens,
        vec![
            Token::Variable(b'A'),
            Token::Variable(b'B'),
            Token::LogicalNot,
            Token::LogicalImp
        ]
    );
    assert_eq!(evaluate_formula("A -> ~B", &[(b'A', true), (b'B', false)]), Ok(true));
}

#[test]
fn bracket_left_open_has_no_value() {
    assert_eq!(
        evaluate_formula("(A & B", &[(b'A', true), (b'B', true)]),
        Err(EvalError::InvalidToken(Token::OpenParen))
    );
}

#[test]
fn bare_variable_as_a_formula_gives_no_table() {
    assert_eq!(
        tabulate(&["A -> B", "A", "B"]).unwrap_err(),
        TableError::Eval(EvalError::NonValueLeft(b'A'))
    );
    assert_eq!(
        tabulate(&["A v B", "A"]).unwrap_err(),
        TableError::Eval(EvalError::NonValueLeft(b'A'))
    );
}

#[test]
fn modus_ponens_has_no_witness() {
    let table = tabulate(&["A -> B", "A & A", "B & B"]).unwrap();
    assert_eq!(table.names, vec![b'A', b'B']);
    assert_eq!(table.rows.len(), 4);
    for row in &table.rows {
        assert!(!row.witness);
    }
    assert_eq!(
        table.rows,
        vec![
            Row { values: vec![true, true], results: vec![true, true, true], witness: false },
            Row { values: vec![true, false], results: vec![false, true, false], witness: false },
            Row { values: vec![false, true], results: vec![true, false, true], witness: false },
            Row { values: vec![false, false], results: vec![true, false, false], witness: false },
        ]
    );
}

#[test]
fn disjunction_does_not_give_its_left_side() {
    let table = tabulate(&["A v B", "A & A"]).unwrap();
    assert_eq!(table.names, vec![b'A', b'B']);
    let row = &table.rows[2];
    assert_eq!(row.values, vec![false, true]);
    assert_eq!(row.results, vec![true, false]);
    assert!(row.witness);
    let witnesses: Vec<bool> = table.rows.iter().map(|r| r.witness).collect();
    assert_eq!(witnesses, vec![false, false, true, false]);
}

#[test]
fn table_over_given_names() {
    let formulas = vec![shunting_yard("A & B").unwrap().0];
    let rows = truth_table(&formulas, &vec![b'A', b'B']).unwrap();
    let results: Vec<bool> = rows.iter().map(|r| r.results[0]).collect();
    assert_eq!(results, vec![true, false, false, false]);
}

#[test]
fn table_without_variables_has_one_row() {
    let rows = truth_table(&vec![vec![Token::Value(true)]], &vec![]).unwrap();
    assert_eq!(rows, vec![Row { values: vec![], results: vec![true], witness: false }]);
}

#[test]
fn table_without_formulas() {
    let table = tabulate(&[]).unwrap();
    assert!(table.names.is_empty());
    assert_eq!(table.rows, vec![Row { values: vec![], results: vec![], witness: false }]);
}

#[test]
fn table_has_a_row_for_each_assignment() {
    let table = tabulate(&["A & B & C & D & E"]).unwrap();
    assert_eq!(table.names, vec![b'A', b'B', b'C', b'D', b'E']);
    assert_eq!(table.rows.len(), 32);
    assert_eq!(table.rows[0].results, vec![true]);
    assert_eq!(table.rows[31].values, vec![false; 5]);
    assert_eq!(table.rows[10].values, vec![true, false, true, false, true]);
}

#[test]
fn refused_formula_gives_no_table() {
    assert_eq!(
        tabulate(&["A & B", "A # B"]).unwrap_err(),
        TableError::Parse(ParseError::InvalidCharacter { character: b'#', index: 2 })
    );
}

#[test]
fn formula_without_value_gives_no_table() {
    assert_eq!(
        tabulate(&["A & B", "A &"]).unwrap_err(),
        TableError::Eval(EvalError::TooFewOperands)
    );
    assert_eq!(tabulate(&["A"]).unwrap_err(), TableError::Eval(EvalError::NonValueLeft(b'A')));
}

#[test]
fn fault_goes_before_missing_value() {
    assert_eq!(
        tabulate(&["A &", "B -"]).unwrap_err(),
        TableError::Parse(ParseError::IncompleteImplication { index: 2, found: None })
    );
}

#[test]
fn table_over_names_that_formulas_lack() {
    let formulas = vec![shunting_yard("A & B").unwrap().0];
    assert_eq!(
        truth_table(&formulas, &vec![b'A']),
        Err(EvalError::UndefinedVariable(b'B'))
    );
}
