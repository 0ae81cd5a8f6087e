//! Blanks are insignificant: a formula that converts still converts, and to
//! the same postfix form, when its blanks are taken out.

use crate::parser::{
    fault_at, first_fault, formula_postfix, formula_variables, infix_tokens,
    lemma_formula_variables_push, lemma_infix_tokens_push, lemma_no_fault, HYPHEN, SPACE,
};
use vstd::prelude::*;

verus! {

/// The formula without its blanks.
pub open spec fn without_blanks(bytes: Seq<u8>) -> Seq<u8>
    decreases bytes.len(),
{
    if bytes.len() == 0 {
        Seq::empty()
    } else if bytes.last() == SPACE {
        without_blanks(bytes.drop_last())
    } else {
        without_blanks(bytes.drop_last()).push(bytes.last())
    }
}

/// Whether no byte of the formula has a fault.
pub open spec fn is_faultless(bytes: Seq<u8>) -> bool {
    forall|i: int| 0 <= i < bytes.len() ==> fault_at(bytes, i) is None
}

/// Whether no byte has a fault but, possibly, a `-` at the very end, whose
/// `>` may still come.
pub open spec fn is_faultless_so_far(bytes: Seq<u8>) -> bool {
    forall|i: int|
        0 <= i < bytes.len() ==> fault_at(bytes, i) is None || (i == bytes.len() - 1 && bytes[i]
            == HYPHEN)
}

/// A formula without a first fault has no faulty byte.
pub proof fn lemma_no_first_fault(bytes: Seq<u8>, from: int)
    requires
        0 <= from,
        first_fault(bytes, from) is None,
    ensures
        forall|i: int| from <= i < bytes.len() ==> fault_at(bytes, i) is None,
    decreases bytes.len() - from,
{
    if from < bytes.len() {
        lemma_no_first_fault(bytes, from + 1);
    }
}

/// Taking the blanks out changes neither the tokens nor the variables.
pub proof fn lemma_without_blanks_reads_the_same(bytes: Seq<u8>)
    ensures
        infix_tokens(without_blanks(bytes)) == infix_tokens(bytes),
        formula_variables(without_blanks(bytes)) == formula_variables(bytes),
    decreases bytes.len(),
{
    if bytes.len() > 0 {
        let init = bytes.drop_last();
        let last = bytes.last();
        lemma_without_blanks_reads_the_same(init);
        assert(bytes =~= init.push(last));
        lemma_infix_tokens_push(init, last);
        lemma_formula_variables_push(init, last);
        if last != SPACE {
            lemma_infix_tokens_push(without_blanks(init), last);
            lemma_formula_variables_push(without_blanks(init), last);
        }
    } else {
        assert(without_blanks(bytes) =~= bytes);
    }
}

/// Taking the blanks out of the beginning of a faultless formula leaves no
/// fault, and a `-` at the end of what is left was at the end before.
pub proof fn lemma_without_blanks_so_far(bytes: Seq<u8>, k: int)
    requires
        is_faultless(bytes),
        0 <= k <= bytes.len(),
    ensures
        is_faultless_so_far(without_blanks(bytes.take(k))),
        without_blanks(bytes.take(k)).len() > 0 && without_blanks(bytes.take(k)).last() == HYPHEN
            ==> k > 0 && bytes[k - 1] == HYPHEN,
        k > 0 && bytes[k - 1] != SPACE ==> without_blanks(bytes.take(k)).len() > 0
            && without_blanks(bytes.take(k)).last() == bytes[k - 1],
    decreases k,
{
    if k > 0 {
        let before = bytes.take(k - 1);
        let b = bytes[k - 1];
        let stripped = without_blanks(before);
        lemma_without_blanks_so_far(bytes, k - 1);
        assert(bytes.take(k).drop_last() =~= before);
        assert(bytes.take(k).last() == b);
        assert(fault_at(bytes, k - 1) is None);
        if k > 1 {
            assert(fault_at(bytes, k - 2) is None);
        }
        if b != SPACE {
            let longer = stripped.push(b);
            assert forall|i: int| 0 <= i < longer.len() implies fault_at(longer, i) is None || (i
                == longer.len() - 1 && longer[i] == HYPHEN) by {
                if i < stripped.len() {
                    assert(longer[i] == stripped[i]);
                    if i + 1 < stripped.len() {
                        assert(longer[i + 1] == stripped[i + 1]);
                    }
                    if i > 0 {
                        assert(longer[i - 1] == stripped[i - 1]);
                    }
                    assert(fault_at(stripped, i) is None || (i == stripped.len() - 1 && stripped[i]
                        == HYPHEN));
                }
            }
        }
    }
}

/// Blanks are insignificant: a formula that has no fault converts to the same
/// postfix form, with the same variables, when its blanks are taken out.
pub proof fn law_blanks_are_insignificant(bytes: Seq<u8>)
    requires
        formula_postfix(bytes) is Ok,
    ensures
        formula_postfix(without_blanks(bytes)) == formula_postfix(bytes),
        formula_variables(without_blanks(bytes)) == formula_variables(bytes),
{
    let stripped = without_blanks(bytes);
    lemma_no_first_fault(bytes, 0);
    lemma_without_blanks_so_far(bytes, bytes.len() as int);
    assert(bytes.take(bytes.len() as int) =~= bytes);
    if bytes.len() > 0 {
        assert(fault_at(bytes, bytes.len() - 1) is None);
    }
    lemma_no_fault(stripped, 0);
    lemma_without_blanks_reads_the_same(bytes);
}

} // verus!
