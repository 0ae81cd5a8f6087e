//! What a truth table shows: its rows are all the assignments of its
//! variables, so the last formula follows from the others exactly if no row
//! is a witness against it.

use crate::evaluator::EvalError;
use crate::parser::{formulas_postfix, formulas_variables, Token};
use crate::table::{
    assignment_of, bit_of, invalidity_witness, lemma_sorted_names, row_results, table_of,
    table_row, table_rows, tabulation, variable_value, RowView, TableError,
};
use vstd::arithmetic::div_mod::{lemma_basic_div, lemma_hoist_over_denominator};
use vstd::arithmetic::power2::{lemma_pow2_adds, lemma_pow2_pos, lemma_pow2_unfold, pow2};
use vstd::prelude::*;

verus! {

/// Adding `2^e` to a number below `2^e` sets bit `e` and leaves the lower
/// bits as they are.
pub proof fn lemma_bit_of_sum(low: nat, high: bool, e: nat, j: nat)
    requires
        low < pow2(e),
        j <= e,
    ensures
        bit_of(low + if high { pow2(e) } else { 0 }, j) == if j == e {
            high
        } else {
            bit_of(low, j)
        },
{
    let top: nat = if high { 1 } else { 0 };
    let sum = low + if high { pow2(e) } else { 0nat };
    lemma_pow2_pos(j);
    if j == e {
        lemma_basic_div(low as int, pow2(e) as int);
        lemma_hoist_over_denominator(low as int, top as int, pow2(e));
        assert(top * pow2(e) == if high { pow2(e) } else { 0nat }) by (nonlinear_arith)
            requires
                top == if high { 1nat } else { 0nat },
        ;
    } else {
        let rest = (e - j) as nat;
        lemma_pow2_adds(j, rest);
        lemma_pow2_unfold(rest);
        let half = pow2((rest - 1) as nat);
        let factor = top * pow2(rest);
        assert(factor * pow2(j) == if high { pow2(e) } else { 0nat }) by (nonlinear_arith)
            requires
                factor == top * pow2(rest),
                pow2(e) == pow2(j) * pow2(rest),
                top == if high { 1nat } else { 0nat },
        ;
        lemma_hoist_over_denominator(low as int, factor as int, pow2(j));
        assert(factor == 2 * (top * half)) by (nonlinear_arith)
            requires
                factor == top * pow2(rest),
                pow2(rest) == 2 * half,
        ;
        assert(sum / pow2(j) == low / pow2(j) + factor);
    }
}

/// With names that differ from each other, the assignment of a row gives each
/// name the value of its place, and defines nothing else.
pub proof fn lemma_assignment_of_distinct(names: Seq<u8>, row: nat)
    requires
        names.no_duplicates(),
    ensures
        assignment_of(names, row).dom() == names.to_set(),
        forall|k: int|
            0 <= k < names.len() ==> #[trigger] assignment_of(names, row)[names[k]]
                == variable_value(names.len(), k as nat, row),
    decreases names.len(),
{
    if names.len() == 0 {
        assert(assignment_of(names, row).dom() =~= names.to_set());
    } else {
        let rest = names.drop_first();
        lemma_assignment_of_distinct(rest, row);
        assert(assignment_of(names, row).dom() =~= names.to_set()) by {
            assert forall|v: u8| names.to_set().contains(v) <==> rest.to_set().contains(v) || v
                == names.first() by {
                if names.contains(v) {
                    let k = choose|k: int| 0 <= k < names.len() && names[k] == v;
                    if k > 0 {
                        assert(rest[k - 1] == v);
                    }
                }
                if rest.contains(v) {
                    let k = choose|k: int| 0 <= k < rest.len() && rest[k] == v;
                    assert(names[k + 1] == v);
                }
                if v == names.first() {
                    assert(names[0] == v);
                }
            }
        }
        assert forall|k: int| 0 <= k < names.len() implies #[trigger] assignment_of(
            names,
            row,
        )[names[k]] == variable_value(names.len(), k as nat, row) by {
            if k > 0 {
                assert(names[k] == rest[k - 1]);
                assert(names[k] != names[0]);
                assert(assignment_of(rest, row)[rest[k - 1]] == variable_value(
                    rest.len(),
                    (k - 1) as nat,
                    row,
                ));
            }
        }
    }
}

/// The row in which each name has the value that `vars` gives it.
pub open spec fn row_of(vars: Map<u8, bool>, names: Seq<u8>) -> nat
    decreases names.len(),
{
    if names.len() == 0 {
        0
    } else {
        row_of(vars, names.drop_first()) + if vars[names.first()] {
            0
        } else {
            pow2((names.len() - 1) as nat)
        }
    }
}

/// The row of an assignment is a row of the table, and in it each place has
/// the value that the assignment gives to the name at that place.
pub proof fn lemma_row_of(vars: Map<u8, bool>, names: Seq<u8>)
    ensures
        row_of(vars, names) < pow2(names.len()),
        forall|k: int|
            0 <= k < names.len() ==> variable_value(
                names.len(),
                k as nat,
                row_of(vars, names),
            ) == vars[#[trigger] names[k]],
    decreases names.len(),
{
    if names.len() == 0 {
        lemma_pow2_pos(0);
    } else {
        let rest = names.drop_first();
        let e = rest.len();
        let low = row_of(vars, rest);
        let high = !vars[names.first()];
        lemma_row_of(vars, rest);
        lemma_pow2_unfold(names.len());
        assert forall|k: int| 0 <= k < names.len() implies variable_value(
            names.len(),
            k as nat,
            row_of(vars, names),
        ) == vars[#[trigger] names[k]] by {
            lemma_bit_of_sum(low, high, e, (e - k) as nat);
            if k > 0 {
                assert(names[k] == rest[k - 1]);
                assert(variable_value(rest.len(), (k - 1) as nat, low) == vars[rest[k - 1]]);
            }
        }
    }
}

/// Every assignment of the variables has its row: the rows of a table are
/// all the assignments there are.
pub proof fn law_every_assignment_has_a_row(vars: Map<u8, bool>, names: Seq<u8>)
    requires
        names.no_duplicates(),
        vars.dom() == names.to_set(),
    ensures
        row_of(vars, names) < pow2(names.len()),
        assignment_of(names, row_of(vars, names)) == vars,
{
    let row = row_of(vars, names);
    lemma_row_of(vars, names);
    lemma_assignment_of_distinct(names, row);
    assert(assignment_of(names, row) =~= vars) by {
        assert forall|v: u8| vars.dom().contains(v) implies assignment_of(names, row)[v]
            == vars[v] by {
            let k = choose|k: int| 0 <= k < names.len() && names[k] == v;
            assert(assignment_of(names, row)[names[k]] == variable_value(
                names.len(),
                k as nat,
                row,
            ));
        }
    }
}

/// A table that has rows has one for each number below its count, and each
/// is the row of that number.
pub proof fn lemma_table_rows_are_rows(
    formulas: Seq<Seq<Token>>,
    names: Seq<u8>,
    count: nat,
    i: int,
)
    requires
        table_rows(formulas, names, count) is Ok,
        0 <= i < count,
    ensures
        table_rows(formulas, names, count)->Ok_0.len() == count,
        table_row(formulas, names, i as nat) == Ok::<RowView, EvalError>(
            table_rows(formulas, names, count)->Ok_0[i],
        ),
    decreases count,
{
    let before = table_rows(formulas, names, (count - 1) as nat);
    assert(before is Ok);
    if count > 1 {
        if i < count - 1 {
            lemma_table_rows_are_rows(formulas, names, (count - 1) as nat, i);
        } else {
            lemma_table_rows_are_rows(formulas, names, (count - 1) as nat, 0);
        }
    } else {
        assert(before == Ok::<Seq<RowView>, EvalError>(Seq::empty()));
    }
}

/// Whether the last of `formulas` follows from the others: no assignment of
/// exactly the variables `names` under which all of them have values makes
/// the others true and the last one false.
pub open spec fn follows(formulas: Seq<Seq<Token>>, names: Seq<u8>) -> bool {
    forall|vars: Map<u8, bool>|
        vars.dom() == names.to_set() ==> match #[trigger] row_results(formulas, vars) {
            Ok(results) => !invalidity_witness(results),
            Err(_) => true,
        }
}

/// A truth table decides consequence: the last formula follows from the
/// others exactly if no row of the table is a witness against it.
pub proof fn law_table_decides_consequence(
    formulas: Seq<Seq<Token>>,
    names: Seq<u8>,
    rows: Seq<RowView>,
)
    requires
        names.no_duplicates(),
        table_of(formulas, names) == Ok::<Seq<RowView>, EvalError>(rows),
    ensures
        follows(formulas, names) <==> forall|i: int| 0 <= i < rows.len() ==> !(#[trigger] rows[
            i
        ]).witness,
{
    let count = pow2(names.len());
    lemma_pow2_pos(names.len());
    lemma_table_rows_are_rows(formulas, names, count, 0);
    if follows(formulas, names) {
        assert forall|i: int| 0 <= i < rows.len() implies !(#[trigger] rows[i]).witness by {
            lemma_table_rows_are_rows(formulas, names, count, i);
            lemma_assignment_of_distinct(names, i as nat);
            let vars = assignment_of(names, i as nat);
            assert(row_results(formulas, vars) is Ok);
        }
    }
    if forall|i: int| 0 <= i < rows.len() ==> !(#[trigger] rows[i]).witness {
        assert forall|vars: Map<u8, bool>| vars.dom() == names.to_set() implies match #[trigger]
        row_results(formulas, vars) {
            Ok(results) => !invalidity_witness(results),
            Err(_) => true,
        } by {
            law_every_assignment_has_a_row(vars, names);
            let i = row_of(vars, names) as int;
            lemma_table_rows_are_rows(formulas, names, count, i);
            assert(!rows[i].witness);
        }
    }
}

/// The truth table of a list of formulas decides whether the last follows
/// from the others: it does exactly if no row of the table is a witness
/// against it.
pub proof fn law_tabulation_decides_consequence(
    formulas: Seq<Seq<u8>>,
    names: Seq<u8>,
    rows: Seq<RowView>,
)
    requires
        tabulation(formulas) == Ok::<(Seq<u8>, Seq<RowView>), TableError>((names, rows)),
    ensures
        formulas_postfix(formulas) is Ok,
        follows(formulas_postfix(formulas)->Ok_0, names) <==> forall|i: int|
            0 <= i < rows.len() ==> !(#[trigger] rows[i]).witness,
{
    lemma_sorted_names(formulas_variables(formulas));
    law_table_decides_consequence(formulas_postfix(formulas)->Ok_0, names, rows);
}

} // verus!
