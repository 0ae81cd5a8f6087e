use std::collections::HashMap;

use truth_table::evaluator::{evaluate, evaluate_postfix, Expr, Operator};
use truth_table::parser::{shunting_yard, Token};
use truth_table::table::{is_invalidity_witness, row_assignment, tabulate};

fn connective(o: Operator) -> &'static str {
    match o {
        Operator::And => "&",
        Operator::Or => "v",
        Operator::Imp => "->",
    }
}

fn atom(e: &Expr) -> String {
    match e {
        Expr::Variable(v) => (*v as char).to_string(),
        _ => format!("({})", formula(e)),
    }
}

fn factor(e: &Expr) -> String {
    match e {
        Expr::SubExpr { .. } => format!("({})", formula(e)),
        _ => formula(e),
    }
}

fn formula(e: &Expr) -> String {
    match e {
        Expr::Variable(v) => (*v as char).to_string(),
        Expr::Not(inner) => format!("~{}", atom(inner)),
        Expr::SubExpr { l, o, r } => format!("{} {} {}", formula(l), connective(*o), factor(r)),
    }
}

fn flatten(e: &Expr) -> Vec<Token> {
    match e {
        Expr::Variable(v) => vec![Token::Variable(*v)],
        Expr::Not(inner) => {
            let mut tokens = flatten(inner);
            tokens.push(Token::LogicalNot);
            tokens
        }
        Expr::SubExpr { l, o, r } => {
            let mut tokens = flatten(l);
            tokens.extend(flatten(r));
            tokens.push(match o {
                Operator::And => Token::LogicalAnd,
                Operator::Or => Token::LogicalOr,
                Operator::Imp => Token::LogicalImp,
            });
            tokens
        }
    }
}

fn assignments(names: &[u8]) -> Vec<HashMap<u8, bool>> {
    (0..1usize << names.len()).map(|row| row_assignment(&names.to_vec(), row)).collect()
}

fn assert_tree_agrees(e: &Expr, text: &str, names: &[u8]) {
    assert_eq!(formula(e), text);
    let (tokens, _) = shunting_yard(text).unwrap();
    assert_eq!(tokens, flatten(e));
    for vars in assignments(names) {
        assert_eq!(evaluate_postfix(&tokens, &vars), evaluate(e, &vars));
    }
}

#[test]
fn formula_of_a_tree_converts_to_its_postfix_form() {
    let a = Expr::Variable(b'A');
    let b = Expr::Variable(b'B');
    let c = Expr::Variable(b'C');
    let not_b = Expr::Not(&b);
    let a_imp_not_b = Expr::SubExpr { l: &a, o: Operator::Imp, r: &not_b };
    assert_tree_agrees(&a_imp_not_b, "A -> ~B", b"AB");

    let a_and_b = Expr::SubExpr { l: &a, o: Operator::And, r: &b };
    let chain = Expr::SubExpr { l: &a_and_b, o: Operator::Or, r: &c };
    assert_tree_agrees(&chain, "A & B v C", b"ABC");

    let b_or_c = Expr::SubExpr { l: &b, o: Operator::Or, r: &c };
    let right = Expr::SubExpr { l: &a, o: Operator::And, r: &b_or_c };
    assert_tree_agrees(&right, "A & (B v C)", b"ABC");

    let not_chain = Expr::Not(&chain);
    let not_not = Expr::Not(&not_chain);
    let deep = Expr::SubExpr { l: &not_not, o: Operator::Imp, r: &right };
    assert_tree_agrees(&deep, "~(~(A & B v C)) -> (A & (B v C))", b"ABC");
}

#[test]
fn nested_tree_agrees_with_its_formula() {
    // ~(A v (D -> R)) & (~(~B) -> C)
    let a = Expr::Variable(b'A');
    let b = Expr::Variable(b'B');
    let c = Expr::Variable(b'C');
    let d = Expr::Variable(b'D');
    let r = Expr::Variable(b'R');
    let d_imp_r = Expr::SubExpr { l: &d, o: Operator::Imp, r: &r };
    let a_or = Expr::SubExpr { l: &a, o: Operator::Or, r: &d_imp_r };
    let left = Expr::Not(&a_or);
    let not_b = Expr::Not(&b);
    let not_not_b = Expr::Not(&not_b);
    let right = Expr::SubExpr { l: &not_not_b, o: Operator::Imp, r: &c };
    let whole = Expr::SubExpr { l: &left, o: Operator::And, r: &right };
    assert_tree_agrees(&whole, "~(A v (D -> R)) & (~(~B) -> C)", b"ABCDR");
}

#[test]
fn brackets_around_a_formula_of_a_tree_change_nothing() {
    for text in ["A & B", "A -> ~B", "~(A v B) & C", "A & (B v C) -> D"] {
        let wrapped = format!("({})", text);
        assert_eq!(shunting_yard(&wrapped).unwrap().0, shunting_yard(text).unwrap().0);
    }
}

#[test]
fn blanks_are_insignificant() {
    for text in ["A -> B", " ( A & B )  v ~ C ", "A)  & (B", "~ ~ A", "   "] {
        let stripped: String = text.chars().filter(|c| *c != ' ').collect();
        assert_eq!(shunting_yard(&stripped), shunting_yard(text));
    }
}

#[test]
fn blank_inside_an_arrow_is_significant() {
    assert!(shunting_yard("A - > B").is_err());
    assert!(shunting_yard("A->B").is_ok());
}

#[test]
fn operands_keep_their_order() {
    for text in ["A & B v C", "(A -> (B & ~C)) v D", "A) & ((B ~ v C", "~~~A B C &"] {
        let (tokens, _) = shunting_yard(text).unwrap();
        let operands: Vec<u8> = tokens
            .iter()
            .filter_map(|t| match t {
                Token::Variable(v) => Some(*v),
                _ => None,
            })
            .collect();
        let letters: Vec<u8> = text.bytes().filter(|b| b.is_ascii_uppercase()).collect();
        assert_eq!(operands, letters);
    }
}

#[test]
fn no_closing_bracket_is_emitted() {
    for text in ["(A & B)", "A) & B)", ")))", "((A) v (B))) -> C", "(((A"] {
        let (tokens, _) = shunting_yard(text).unwrap();
        assert!(!tokens.contains(&Token::ClosedParen));
    }
}

fn follows(formulas: &[&str], names: &[u8]) -> bool {
    let converted: Vec<Vec<Token>> =
        formulas.iter().map(|f| shunting_yard(f).unwrap().0).collect();
    assignments(names).iter().all(|vars| {
        let results: Vec<bool> =
            converted.iter().map(|f| evaluate_postfix(f, vars).unwrap()).collect();
        !is_invalidity_witness(&results)
    })
}

#[test]
fn table_decides_consequence() {
    let cases: [(&[&str], &[u8], bool); 5] = [
        (&["A -> B", "A & A", "B & B"], b"AB", true),
        (&["A v B", "A & A"], b"AB", false),
        (&["A -> B", "B -> C", "A -> C"], b"ABC", true),
        (&["A -> B", "B & B", "A & A"], b"AB", false),
        (&["A & ~A", "B & C"], b"ABC", true),
    ];
    for (formulas, names, expected) in cases {
        let table = tabulate(formulas).unwrap();
        assert_eq!(table.names, names.to_vec());
        let no_witness = table.rows.iter().all(|row| !row.witness);
        assert_eq!(no_witness, expected);
        assert_eq!(follows(formulas, names), expected);
    }
}

#[test]
fn every_assignment_has_its_row() {
    let names = vec![b'P', b'Q', b'R'];
    for p in [false, true] {
        for q in [false, true] {
            for r in [false, true] {
                let row = (!p as usize) * 4 + (!q as usize) * 2 + (!r as usize);
                let vars = row_assignment(&names, row);
                let mut expected = HashMap::new();
                expected.insert(b'P', p);
                expected.insert(b'Q', q);
                expected.insert(b'R', r);
                assert_eq!(vars, expected);
            }
        }
    }
}
