//! Truth tables: every assignment of the variables of a list of formulas, the
//! value of each formula under it, and whether it refutes that the last
//! formula follows from the others.
//!
//! With `n` variables in ascending order of their names there are `2^n` rows.
//! In row `i` the variable at place `k` is true exactly if bit `n - 1 - k` of
//! `i` is clear, so that the first row makes every variable true and the first
//! variable changes slowest.

use crate::evaluator::{evaluate_postfix, postfix_value, EvalError};
use crate::parser::{
    formula_variables, formulas_bytes, formulas_postfix, formulas_variables, formulas_view,
    is_variable_byte, parse_formulas, ParseError, Token,
};
use std::collections::{HashMap, HashSet};
use vstd::arithmetic::div_mod::lemma_basic_div;
use vstd::arithmetic::power2::{lemma_pow2_pos, lemma_pow2_strictly_increases, pow2};
use vstd::bits::{lemma_usize_pow2_no_overflow, lemma_usize_shl_is_mul, lemma_usize_shr_is_div};
use vstd::layout::unsigned_int_max_values;
use vstd::prelude::*;

verus! {

/// Bit `i` of `num`, the lowest bit being bit 0.
pub open spec fn bit_of(num: nat, i: nat) -> bool {
    (num / pow2(i)) % 2 == 1
}

/// Tells whether bit `i` of `num` is set. Bits beyond the width of `usize`
/// are clear.
pub fn bit_at(num: usize, i: usize) -> (b: bool)
    ensures
        b == bit_of(num as nat, i as nat),
{
    if i < usize::BITS as usize {
        let shifted = num >> i;
        proof {
            lemma_usize_shr_is_div(num, i);
            assert((shifted & 1 == 1) == (shifted % 2 == 1)) by (bit_vector);
        }
        shifted & 1 == 1
    } else {
        proof {
            unsigned_int_max_values();
            lemma_pow2_pos(i as nat);
            if i > usize::BITS {
                lemma_pow2_strictly_increases(usize::BITS as nat, i as nat);
            }
            lemma_basic_div(num as int, pow2(i as nat) as int);
        }
        false
    }
}

/// The value of the variable at place `k` of `count` in row `row`.
pub open spec fn variable_value(count: nat, k: nat, row: nat) -> bool
    recommends
        k < count,
{
    !bit_of(row, (count - 1 - k) as nat)
}

/// The assignment of row `row`: each name with the value of its place. Of a
/// name that occurs more than once the first place counts.
pub open spec fn assignment_of(names: Seq<u8>, row: nat) -> Map<u8, bool>
    decreases names.len(),
{
    if names.len() == 0 {
        Map::empty()
    } else {
        assignment_of(names.drop_first(), row).insert(
            names.first(),
            variable_value(names.len(), 0, row),
        )
    }
}

/// Builds the assignment of row `row` for the variables `names`.
pub fn row_assignment(names: &Vec<u8>, row: usize) -> (vars: HashMap<u8, bool>)
    ensures
        vars@ == assignment_of(names@, row as nat),
{
    broadcast use vstd::std_specs::hash::group_hash_axioms;

    let n = names.len();
    let mut vars: HashMap<u8, bool> = HashMap::new();
    let mut j: usize = 0;
    proof {
        assert(names@.skip(n as int) =~= Seq::<u8>::empty());
    }
    while j < n
        invariant
            n == names@.len(),
            j <= n,
            vars@ == assignment_of(names@.skip(n - j), row as nat),
        decreases n - j,
    {
        let k = n - 1 - j;
        let value = !bit_at(row, j);
        proof {
            let suffix = names@.skip(k as int);
            assert(suffix.drop_first() =~= names@.skip(n - j));
            assert(suffix.first() == names@[k as int]);
            assert(suffix.len() == j + 1);
        }
        vars.insert(names[k], value);
        j += 1;
    }
    proof {
        assert(names@.skip(0) =~= names@);
    }
    vars
}

/// The members of `set` below `bound`, in ascending order.
pub open spec fn names_below(set: Set<u8>, bound: nat) -> Seq<u8>
    decreases bound,
{
    if bound == 0 {
        Seq::empty()
    } else if bound <= 256 && set.contains((bound - 1) as u8) {
        names_below(set, (bound - 1) as nat).push((bound - 1) as u8)
    } else {
        names_below(set, (bound - 1) as nat)
    }
}

/// The members of `set` in ascending order.
pub open spec fn sorted_names(set: Set<u8>) -> Seq<u8> {
    names_below(set, 256)
}

/// Whether each element is less than the next.
pub open spec fn ascending(names: Seq<u8>) -> bool {
    forall|i: int, j: int| 0 <= i < j < names.len() ==> names[i] < names[j]
}

/// `names_below` lists exactly the members below the bound, each once and in
/// ascending order.
pub proof fn lemma_names_below(set: Set<u8>, bound: nat)
    requires
        bound <= 256,
    ensures
        ascending(names_below(set, bound)),
        forall|v: u8| #[trigger]
            names_below(set, bound).contains(v) <==> set.contains(v) && v < bound,
    decreases bound,
{
    if bound > 0 {
        let shorter = names_below(set, (bound - 1) as nat);
        let top = (bound - 1) as u8;
        lemma_names_below(set, (bound - 1) as nat);
        if set.contains(top) {
            let longer = shorter.push(top);
            assert forall|i: int, j: int| 0 <= i < j < longer.len() implies longer[i]
                < longer[j] by {
                if j == shorter.len() {
                    assert(shorter.contains(shorter[i]));
                }
            }
            assert forall|v: u8| longer.contains(v) <==> set.contains(v) && v < bound by {
                if longer.contains(v) {
                    let k = choose|k: int| 0 <= k < longer.len() && longer[k] == v;
                    if k < shorter.len() {
                        assert(shorter.contains(v));
                    }
                }
                if set.contains(v) && v < bound {
                    if v == top {
                        assert(longer[shorter.len() as int] == v);
                    } else {
                        assert(shorter.contains(v));
                        let k = choose|k: int| 0 <= k < shorter.len() && shorter[k] == v;
                        assert(longer[k] == v);
                    }
                }
            }
        }
    }
}

/// The members of a set are its sorted names, and these ascend.
pub proof fn lemma_sorted_names(set: Set<u8>)
    ensures
        ascending(sorted_names(set)),
        sorted_names(set).no_duplicates(),
        sorted_names(set).to_set() == set,
{
    lemma_names_below(set, 256);
    assert(sorted_names(set).to_set() =~= set);
}

/// Lists the variables of a set in ascending order of their names.
pub fn sorted_variables(variables: &HashSet<u8>) -> (names: Vec<u8>)
    ensures
        names@ == sorted_names(variables@),
{
    broadcast use vstd::std_specs::hash::group_hash_axioms;

    let mut names: Vec<u8> = Vec::new();
    let mut bound: u16 = 0;
    while bound < 256
        invariant
            bound <= 256,
            names@ == names_below(variables@, bound as nat),
        decreases 256 - bound,
    {
        let candidate = bound as u8;
        if variables.contains(&candidate) {
            names.push(candidate);
        }
        bound += 1;
    }
    names
}

/// The values of `formulas` under `vars`, or the error of the first formula
/// that has none.
pub open spec fn row_results(formulas: Seq<Seq<Token>>, vars: Map<u8, bool>) -> Result<
    Seq<bool>,
    EvalError,
>
    decreases formulas.len(),
{
    if formulas.len() == 0 {
        Ok(Seq::empty())
    } else {
        match row_results(formulas.drop_last(), vars) {
            Err(e) => Err(e),
            Ok(results) => match postfix_value(formulas.last(), vars) {
                Err(e) => Err(e),
                Ok(b) => Ok(results.push(b)),
            },
        }
    }
}

/// Evaluates every formula under `vars` and stops at the first that has no
/// value.
pub fn evaluate_all(formulas: &Vec<Vec<Token>>, vars: &HashMap<u8, bool>) -> (r: Result<
    Vec<bool>,
    EvalError,
>)
    ensures
        match r {
            Ok(results) => row_results(formulas_view(formulas@), vars@) == Ok::<
                Seq<bool>,
                EvalError,
            >(results@),
            Err(e) => row_results(formulas_view(formulas@), vars@) == Err::<Seq<bool>, EvalError>(
                e,
            ),
        },
{
    let ghost all = formulas_view(formulas@);
    let mut results: Vec<bool> = Vec::new();
    let mut k: usize = 0;
    proof {
        assert(all.take(0) =~= Seq::<Seq<Token>>::empty());
    }
    while k < formulas.len()
        invariant
            all == formulas_view(formulas@),
            k <= formulas@.len(),
            row_results(all.take(k as int), vars@) == Ok::<Seq<bool>, EvalError>(results@),
        decreases formulas@.len() - k,
    {
        proof {
            assert(all.take(k + 1).drop_last() =~= all.take(k as int));
            assert(all.take(k + 1).last() == formulas@[k as int]@);
        }
        match evaluate_postfix(&formulas[k], vars) {
            Ok(b) => results.push(b),
            Err(e) => {
                proof {
                    lemma_row_results_fails(all, (k + 1) as int, vars@);
                }
                return Err(e);
            },
        }
        k += 1;
    }
    proof {
        assert(all.take(k as int) =~= all);
    }
    Ok(results)
}

/// Once a formula has no value, no longer list of formulas has values.
pub proof fn lemma_row_results_fails(formulas: Seq<Seq<Token>>, k: int, vars: Map<u8, bool>)
    requires
        0 <= k <= formulas.len(),
        row_results(formulas.take(k), vars) is Err,
    ensures
        row_results(formulas, vars) == row_results(formulas.take(k), vars),
    decreases formulas.len(),
{
    if k == formulas.len() {
        assert(formulas.take(k) =~= formulas);
    } else {
        assert(formulas.drop_last().take(k) =~= formulas.take(k));
        lemma_row_results_fails(formulas.drop_last(), k, vars);
    }
}

/// Whether a row refutes the consequence: every premise is true and the
/// conclusion, the last formula, is false.
pub open spec fn invalidity_witness(results: Seq<bool>) -> bool {
    &&& results.len() > 0
    &&& !results.last()
    &&& forall|k: int| 0 <= k < results.len() - 1 ==> results[k]
}

/// Tells whether the values of a row refute that the last formula follows
/// from the others. A row without formulas refutes nothing.
pub fn is_invalidity_witness(results: &Vec<bool>) -> (b: bool)
    ensures
        b == invalidity_witness(results@),
{
    let n = results.len();
    if n == 0 {
        return false;
    }
    if results[n - 1] {
        return false;
    }
    let mut k: usize = 0;
    while k < n - 1
        invariant
            n == results@.len(),
            n > 0,
            k <= n - 1,
            forall|j: int| 0 <= j < k ==> results@[j],
        decreases n - k,
    {
        if !results[k] {
            return false;
        }
        k += 1;
    }
    true
}

/// One line of a truth table.
#[derive(Debug, PartialEq, Eq)]
pub struct Row {
    /// The value of each variable, in the order of the names.
    pub values: Vec<bool>,
    /// The value of each formula, in the order of the formulas.
    pub results: Vec<bool>,
    /// Whether the row refutes that the last formula follows from the others.
    pub witness: bool,
}

/// A [`Row`] as plain mathematical data.
pub struct RowView {
    pub values: Seq<bool>,
    pub results: Seq<bool>,
    pub witness: bool,
}

impl View for Row {
    type V = RowView;

    open spec fn view(&self) -> RowView {
        RowView { values: self.values@, results: self.results@, witness: self.witness }
    }
}

/// The values of `count` variables in row `row`, in the order of their places.
pub open spec fn row_values(count: nat, row: nat) -> Seq<bool> {
    Seq::new(count, |k: int| variable_value(count, k as nat, row))
}

/// Row `row` of the table of `formulas` over the variables `names`, or the
/// error of the first formula that has no value in that row.
pub open spec fn table_row(formulas: Seq<Seq<Token>>, names: Seq<u8>, row: nat) -> Result<
    RowView,
    EvalError,
> {
    match row_results(formulas, assignment_of(names, row)) {
        Err(e) => Err(e),
        Ok(results) => Ok(
            RowView {
                values: row_values(names.len(), row),
                results,
                witness: invalidity_witness(results),
            },
        ),
    }
}

/// The first `count` rows of the table, or the error of the first row that
/// has one.
pub open spec fn table_rows(formulas: Seq<Seq<Token>>, names: Seq<u8>, count: nat) -> Result<
    Seq<RowView>,
    EvalError,
>
    decreases count,
{
    if count == 0 {
        Ok(Seq::empty())
    } else {
        match table_rows(formulas, names, (count - 1) as nat) {
            Err(e) => Err(e),
            Ok(rows) => match table_row(formulas, names, (count - 1) as nat) {
                Err(e) => Err(e),
                Ok(row) => Ok(rows.push(row)),
            },
        }
    }
}

/// The whole table: one row for each of the `2^n` assignments of `n`
/// variables.
pub open spec fn table_of(formulas: Seq<Seq<Token>>, names: Seq<u8>) -> Result<
    Seq<RowView>,
    EvalError,
> {
    table_rows(formulas, names, pow2(names.len()))
}

/// The rows that a vector holds, as plain data.
pub open spec fn rows_view(rows: Seq<Row>) -> Seq<RowView> {
    rows.map_values(|r: Row| r@)
}

/// Once a row has an error, no longer table has rows.
pub proof fn lemma_table_rows_fails(
    formulas: Seq<Seq<Token>>,
    names: Seq<u8>,
    failed: nat,
    count: nat,
)
    requires
        failed <= count,
        table_rows(formulas, names, failed) is Err,
    ensures
        table_rows(formulas, names, count) == table_rows(formulas, names, failed),
    decreases count,
{
    if failed < count {
        lemma_table_rows_fails(formulas, names, failed, (count - 1) as nat);
    }
}

/// Computes the values of the variables in row `row`.
fn values_of_row(count: usize, row: usize) -> (values: Vec<bool>)
    ensures
        values@ == row_values(count as nat, row as nat),
{
    let mut values: Vec<bool> = Vec::new();
    let mut k: usize = 0;
    while k < count
        invariant
            k <= count,
            values@.len() == k,
            forall|j: int|
                0 <= j < k ==> values@[j] == variable_value(count as nat, j as nat, row as nat),
        decreases count - k,
    {
        values.push(!bit_at(row, count - 1 - k));
        k += 1;
    }
    proof {
        assert(values@ =~= row_values(count as nat, row as nat));
    }
    values
}

/// Computes one row of the truth table of `formulas` over the variables
/// `names`.
pub fn compute_row(formulas: &Vec<Vec<Token>>, names: &Vec<u8>, row: usize) -> (r: Result<
    Row,
    EvalError,
>)
    ensures
        match r {
            Ok(line) => table_row(formulas_view(formulas@), names@, row as nat) == Ok::<
                RowView,
                EvalError,
            >(line@),
            Err(e) => table_row(formulas_view(formulas@), names@, row as nat) == Err::<
                RowView,
                EvalError,
            >(e),
        },
{
    let vars = row_assignment(names, row);
    match evaluate_all(formulas, &vars) {
        Err(e) => Err(e),
        Ok(results) => {
            let witness = is_invalidity_witness(&results);
            let values = values_of_row(names.len(), row);
            Ok(Row { values, results, witness })
        },
    }
}

/// Computes the truth table of `formulas` over the variables `names`, row by
/// row, and stops at the first row in which a formula has no value.
pub fn truth_table(formulas: &Vec<Vec<Token>>, names: &Vec<u8>) -> (r: Result<Vec<Row>, EvalError>)
    requires
        names@.len() < usize::BITS,
    ensures
        match r {
            Ok(rows) => table_of(formulas_view(formulas@), names@) == Ok::<Seq<RowView>, EvalError>(
                rows_view(rows@),
            ),
            Err(e) => table_of(formulas_view(formulas@), names@) == Err::<Seq<RowView>, EvalError>(
                e,
            ),
        },
{
    let n = names.len();
    proof {
        lemma_usize_pow2_no_overflow(n as nat);
        lemma_usize_shl_is_mul(1, n);
    }
    let count: usize = 1usize << n;
    let mut rows: Vec<Row> = Vec::new();
    let mut i: usize = 0;
    proof {
        assert(rows_view(rows@) =~= Seq::<RowView>::empty());
    }
    while i < count
        invariant
            i <= count,
            count == pow2(names@.len()),
            table_rows(formulas_view(formulas@), names@, i as nat) == Ok::<Seq<RowView>, EvalError>(
                rows_view(rows@),
            ),
        decreases count - i,
    {
        match compute_row(formulas, names, i) {
            Ok(line) => {
                proof {
                    assert(rows_view(rows@.push(line)) =~= rows_view(rows@).push(line@));
                }
                rows.push(line);
            },
            Err(e) => {
                proof {
                    lemma_table_rows_fails(
                        formulas_view(formulas@),
                        names@,
                        (i + 1) as nat,
                        count as nat,
                    );
                }
                return Err(e);
            },
        }
        i += 1;
    }
    Ok(rows)
}

/// A truth table with the names of its variables.
#[derive(Debug, PartialEq, Eq)]
pub struct TruthTable {
    /// The variables of the formulas, in ascending order.
    pub names: Vec<u8>,
    /// One row for each assignment of the variables.
    pub rows: Vec<Row>,
}

/// Why a list of formulas has no truth table.
#[derive(Clone, Copy, Debug, PartialEq, Eq)]
pub enum TableError {
    /// A formula was refused by the converter.
    Parse(ParseError),
    /// A formula has no value in some row.
    Eval(EvalError),
}

/// The names and rows of the truth table of a list of formulas. A fault in a
/// formula goes before any error of evaluation.
pub open spec fn tabulation(formulas: Seq<Seq<u8>>) -> Result<(Seq<u8>, Seq<RowView>), TableError> {
    match formulas_postfix(formulas) {
        Err(e) => Err(TableError::Parse(e)),
        Ok(converted) => {
            let names = sorted_names(formulas_variables(formulas));
            match table_of(converted, names) {
                Err(e) => Err(TableError::Eval(e)),
                Ok(rows) => Ok((names, rows)),
            }
        },
    }
}

/// In an ascending sequence each element exceeds the first by at least its
/// distance from it.
pub proof fn lemma_ascending_grows(names: Seq<u8>, k: int)
    requires
        ascending(names),
        0 <= k < names.len(),
    ensures
        names[k] >= names[0] + k,
    decreases k,
{
    if k > 0 {
        lemma_ascending_grows(names, k - 1);
    }
}

/// Formulas mention variables only.
pub proof fn lemma_formulas_variables_are_variables(formulas: Seq<Seq<u8>>)
    ensures
        forall|v: u8| #[trigger] formulas_variables(formulas).contains(v) ==> is_variable_byte(v),
    decreases formulas.len(),
{
    if formulas.len() > 0 {
        lemma_formulas_variables_are_variables(formulas.drop_last());
        assert forall|v: u8| #[trigger]
            formulas_variables(formulas).contains(v) implies is_variable_byte(v) by {
            assert(formulas_variables(formulas.drop_last()).contains(v) || formula_variables(
                formulas.last(),
            ).contains(v));
        }
    }
}

/// A list of formulas has at most 26 variables.
pub proof fn lemma_at_most_26_names(formulas: Seq<Seq<u8>>)
    ensures
        sorted_names(formulas_variables(formulas)).len() <= 26,
{
    let set = formulas_variables(formulas);
    let names = sorted_names(set);
    lemma_names_below(set, 256);
    lemma_formulas_variables_are_variables(formulas);
    if names.len() > 0 {
        let last = names.len() - 1;
        lemma_ascending_grows(names, last);
        assert(names.contains(names[0]));
        assert(names.contains(names[last]));
    }
}

/// Computes the truth table of a list of formulas: all but the last are
/// premises, the last is the conclusion.
///
/// The formulas are converted to postfix, their variables are put in
/// ascending order, and every formula is evaluated under every assignment.
/// The first formula that is refused, or else the first row in which a
/// formula has no value, ends the computation with its error.
pub fn tabulate(formulas: &[&str]) -> (r: Result<TruthTable, TableError>)
    ensures
        match r {
            Ok(table) => tabulation(formulas_bytes(formulas@)) == Ok::<
                (Seq<u8>, Seq<RowView>),
                TableError,
            >((table.names@, rows_view(table.rows@))),
            Err(e) => tabulation(formulas_bytes(formulas@)) == Err::<
                (Seq<u8>, Seq<RowView>),
                TableError,
            >(e),
        },
{
    let (converted, variables) = match parse_formulas(formulas) {
        Ok(parsed) => parsed,
        Err(e) => { return Err(TableError::Parse(e)); },
    };
    let names = sorted_variables(&variables);
    proof {
        lemma_at_most_26_names(formulas_bytes(formulas@));
    }
    match truth_table(&converted, &names) {
        Ok(rows) => Ok(TruthTable { names, rows }),
        Err(e) => Err(TableError::Eval(e)),
    }
}

} // verus!
