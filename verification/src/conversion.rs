//! What holds of every conversion, whatever the tokens: the operands come out
//! in the order in which they went in, no closing bracket comes out, and no
//! truth value comes out of a formula.

use crate::parser::{
    formula_postfix, infix_tokens, lemma_infix_tokens_push, postfix_of, Token, Yard,
};
use vstd::prelude::*;

verus! {

/// Whether a token is a variable or a truth value.
pub open spec fn is_operand(t: Token) -> bool {
    t is Variable || t is Value
}

/// The operands of a sequence, in their order.
pub open spec fn operands_of(tokens: Seq<Token>) -> Seq<Token>
    decreases tokens.len(),
{
    if tokens.len() == 0 {
        Seq::empty()
    } else if is_operand(tokens.last()) {
        operands_of(tokens.drop_last()).push(tokens.last())
    } else {
        operands_of(tokens.drop_last())
    }
}

/// Whether neither an operand nor a closing bracket waits in `stack`.
pub open spec fn holds_operators_only(stack: Seq<Token>) -> bool {
    forall|i: int|
        0 <= i < stack.len() ==> !is_operand(#[trigger] stack[i]) && stack[i]
            != Token::ClosedParen
}

/// Whether no closing bracket stands in `tokens`.
pub open spec fn has_no_closing_bracket(tokens: Seq<Token>) -> bool {
    forall|i: int| 0 <= i < tokens.len() ==> #[trigger] tokens[i] != Token::ClosedParen
}

/// The operands of two sequences joined are those of the first and then
/// those of the second.
pub proof fn lemma_operands_of_concat(first: Seq<Token>, second: Seq<Token>)
    ensures
        operands_of(first + second) == operands_of(first) + operands_of(second),
    decreases second.len(),
{
    if second.len() == 0 {
        assert(first + second =~= first);
        assert(operands_of(first) + operands_of(second) =~= operands_of(first));
    } else {
        lemma_operands_of_concat(first, second.drop_last());
        assert((first + second).drop_last() =~= first + second.drop_last());
        assert(operands_of(first + second) =~= operands_of(first) + operands_of(second));
    }
}

/// A sequence of operators has no operands.
pub proof fn lemma_operators_have_no_operands(tokens: Seq<Token>)
    requires
        holds_operators_only(tokens),
    ensures
        operands_of(tokens) == Seq::<Token>::empty(),
    decreases tokens.len(),
{
    if tokens.len() > 0 {
        assert(!is_operand(tokens[tokens.len() - 1]));
        lemma_operators_have_no_operands(tokens.drop_last());
    }
}

/// Whether `after` comes from `before` by emitting some of the waiting
/// tokens, top first.
pub open spec fn has_emitted_from_top(before: Yard, after: Yard) -> bool {
    &&& after.stack.len() <= before.stack.len()
    &&& after.stack == before.stack.take(after.stack.len() as int)
    &&& after.output == before.output + before.stack.skip(after.stack.len() as int).reverse()
}

/// Unwinding to the nearest open bracket emits waiting tokens from the top
/// and does nothing else.
pub proof fn lemma_unwind_to_paren_emits(yard: Yard)
    ensures
        has_emitted_from_top(yard, yard.unwind_to_paren()),
    decreases yard.stack.len(),
{
    let after = yard.unwind_to_paren();
    if yard.stack.len() > 0 && yard.stack.last() != Token::OpenParen {
        let next = yard.emit_top();
        lemma_unwind_to_paren_emits(next);
        let kept = after.stack.len() as int;
        assert(after.stack =~= yard.stack.take(kept));
        assert(yard.stack.skip(kept).reverse() =~= seq![yard.stack.last()] + next.stack.skip(
            kept,
        ).reverse());
        assert(after.output =~= yard.output + yard.stack.skip(kept).reverse());
    } else {
        assert(yard.stack.take(yard.stack.len() as int) =~= yard.stack);
        assert(yard.output + yard.stack.skip(yard.stack.len() as int).reverse() =~= yard.output);
    }
}

/// Unwinding the negations emits waiting tokens from the top and does
/// nothing else.
pub proof fn lemma_unwind_negations_emits(yard: Yard)
    ensures
        has_emitted_from_top(yard, yard.unwind_negations()),
    decreases yard.stack.len(),
{
    let after = yard.unwind_negations();
    if yard.stack.len() > 0 && yard.stack.last() == Token::LogicalNot {
        let next = yard.emit_top();
        lemma_unwind_negations_emits(next);
        let kept = after.stack.len() as int;
        assert(after.stack =~= yard.stack.take(kept));
        assert(yard.stack.skip(kept).reverse() =~= seq![yard.stack.last()] + next.stack.skip(
            kept,
        ).reverse());
        assert(after.output =~= yard.output + yard.stack.skip(kept).reverse());
    } else {
        assert(yard.stack.take(yard.stack.len() as int) =~= yard.stack);
        assert(yard.output + yard.stack.skip(yard.stack.len() as int).reverse() =~= yard.output);
    }
}

/// Emitting waiting operators from the top adds no operand and no closing
/// bracket to the output, and leaves operators waiting.
pub proof fn lemma_emitting_keeps_operands(before: Yard, after: Yard)
    requires
        has_emitted_from_top(before, after),
        holds_operators_only(before.stack),
        has_no_closing_bracket(before.output),
    ensures
        holds_operators_only(after.stack),
        has_no_closing_bracket(after.output),
        operands_of(after.output) == operands_of(before.output),
{
    let kept = after.stack.len() as int;
    let moved = before.stack.skip(kept).reverse();
    assert forall|i: int| 0 <= i < moved.len() implies !is_operand(#[trigger] moved[i])
        && moved[i] != Token::ClosedParen by {
        assert(moved[i] == before.stack[kept + (moved.len() - 1 - i)]);
    }
    lemma_operators_have_no_operands(moved);
    lemma_operands_of_concat(before.output, moved);
    assert(operands_of(before.output) + Seq::<Token>::empty() =~= operands_of(before.output));
    assert forall|i: int| 0 <= i < after.output.len() implies #[trigger] after.output[i]
        != Token::ClosedParen by {
        if i >= before.output.len() {
            assert(after.output[i] == moved[i - before.output.len()]);
        }
    }
    assert forall|i: int| 0 <= i < after.stack.len() implies !is_operand(#[trigger] after.stack[i])
        && after.stack[i] != Token::ClosedParen by {
        assert(after.stack[i] == before.stack[i]);
    }
}

/// Whether `yard` can be the state after `tokens`: only operators and open
/// brackets wait, no closing bracket was emitted, and the operands emitted
/// are those of `tokens`.
pub open spec fn keeps_operands(yard: Yard, tokens: Seq<Token>) -> bool {
    &&& holds_operators_only(yard.stack)
    &&& has_no_closing_bracket(yard.output)
    &&& operands_of(yard.output) == operands_of(tokens)
}

/// One step of the yard keeps the operands in their order.
pub proof fn lemma_step_keeps_operands(yard: Yard, tokens: Seq<Token>, t: Token)
    requires
        keeps_operands(yard, tokens),
    ensures
        keeps_operands(yard.step(t), tokens.push(t)),
{
    assert(tokens.push(t).drop_last() =~= tokens);
    let after = yard.step(t);
    match t {
        Token::OpenParen => {},
        Token::ClosedParen => {
            let unwound = yard.unwind_to_paren();
            lemma_unwind_to_paren_emits(yard);
            lemma_emitting_keeps_operands(yard, unwound);
            if unwound.stack.len() > 0 {
                assert forall|i: int| 0 <= i < after.stack.len() implies !is_operand(
                    #[trigger] after.stack[i],
                ) && after.stack[i] != Token::ClosedParen by {
                    assert(after.stack[i] == unwound.stack[i]);
                }
            }
        },
        Token::LogicalOr | Token::LogicalAnd | Token::LogicalImp => {
            let unwound = yard.unwind_to_paren();
            lemma_unwind_to_paren_emits(yard);
            lemma_emitting_keeps_operands(yard, unwound);
        },
        Token::LogicalNot => {
            let unwound = yard.unwind_negations();
            lemma_unwind_negations_emits(yard);
            lemma_emitting_keeps_operands(yard, unwound);
        },
        Token::Variable(_) | Token::Value(_) => {
            assert(after.output.drop_last() =~= yard.output);
        },
    }
}

/// Feeding the yard keeps the operands in their order.
pub proof fn lemma_feed_keeps_operands(tokens: Seq<Token>)
    ensures
        keeps_operands(Yard::run(tokens), tokens),
    decreases tokens.len(),
{
    if tokens.len() > 0 {
        lemma_feed_keeps_operands(tokens.drop_last());
        lemma_step_keeps_operands(Yard::run(tokens.drop_last()), tokens.drop_last(), tokens.last());
        assert(tokens.drop_last().push(tokens.last()) =~= tokens);
    }
}

/// The converter moves operators only: the operands of the postfix form are
/// those of the infix form, in the same order.
pub proof fn law_conversion_keeps_operands(tokens: Seq<Token>)
    ensures
        operands_of(postfix_of(tokens)) == operands_of(tokens),
{
    let yard = Yard::run(tokens);
    lemma_feed_keeps_operands(tokens);
    lemma_operands_of_concat(yard.output, yard.stack.reverse());
    assert forall|i: int| 0 <= i < yard.stack.reverse().len() implies !is_operand(
        #[trigger] yard.stack.reverse()[i],
    ) && yard.stack.reverse()[i] != Token::ClosedParen by {
        assert(yard.stack.reverse()[i] == yard.stack[yard.stack.len() - 1 - i]);
    }
    lemma_operators_have_no_operands(yard.stack.reverse());
    assert(operands_of(yard.output) + Seq::<Token>::empty() =~= operands_of(yard.output));
}

/// The converter never emits a closing bracket.
pub proof fn law_conversion_drops_closing_brackets(tokens: Seq<Token>)
    ensures
        has_no_closing_bracket(postfix_of(tokens)),
{
    let yard = Yard::run(tokens);
    lemma_feed_keeps_operands(tokens);
    let all = postfix_of(tokens);
    assert forall|i: int| 0 <= i < all.len() implies #[trigger] all[i] != Token::ClosedParen by {
        if i >= yard.output.len() {
            let k = i - yard.output.len();
            assert(all[i] == yard.stack.reverse()[k]);
            assert(yard.stack.reverse()[k] == yard.stack[yard.stack.len() - 1 - k]);
        } else {
            assert(all[i] == yard.output[i]);
        }
    }
}

/// The operands of a sequence are the operands that stand in it.
pub proof fn lemma_operands_of_contains(tokens: Seq<Token>, t: Token)
    ensures
        operands_of(tokens).contains(t) <==> tokens.contains(t) && is_operand(t),
    decreases tokens.len(),
{
    if tokens.len() > 0 {
        let init = tokens.drop_last();
        let last = tokens.last();
        lemma_operands_of_contains(init, t);
        assert(tokens.contains(t) <==> init.contains(t) || last == t) by {
            if tokens.contains(t) {
                let k = choose|k: int| 0 <= k < tokens.len() && tokens[k] == t;
                if k < init.len() {
                    assert(init[k] == t);
                }
            }
            if init.contains(t) {
                let k = choose|k: int| 0 <= k < init.len() && init[k] == t;
                assert(tokens[k] == t);
            }
            if last == t {
                assert(tokens[tokens.len() - 1] == t);
            }
        }
        if is_operand(last) {
            let longer = operands_of(init).push(last);
            assert(longer.contains(t) <==> operands_of(init).contains(t) || last == t) by {
                if longer.contains(t) {
                    let k = choose|k: int| 0 <= k < longer.len() && longer[k] == t;
                    if k < operands_of(init).len() {
                        assert(operands_of(init)[k] == t);
                    }
                }
                if operands_of(init).contains(t) {
                    let k = choose|k: int|
                        0 <= k < operands_of(init).len() && operands_of(init)[k] == t;
                    assert(longer[k] == t);
                }
                if last == t {
                    assert(longer[longer.len() - 1] == t);
                }
            }
        }
    }
}

/// No truth value is read from the bytes of a formula.
pub proof fn lemma_no_value_is_read(bytes: Seq<u8>, b: bool)
    ensures
        !infix_tokens(bytes).contains(Token::Value(b)),
    decreases bytes.len(),
{
    if bytes.len() > 0 {
        let init = bytes.drop_last();
        lemma_no_value_is_read(init, b);
        assert(bytes =~= init.push(bytes.last()));
        lemma_infix_tokens_push(init, bytes.last());
        let tokens = infix_tokens(bytes);
        if tokens.contains(Token::Value(b)) {
            let k = choose|k: int| 0 <= k < tokens.len() && tokens[k] == Token::Value(b);
            if k < infix_tokens(init).len() {
                assert(infix_tokens(init)[k] == Token::Value(b));
            }
        }
    }
}

/// The converter yields no truth values: the operands of what a formula
/// converts to are variables.
pub proof fn law_conversion_yields_no_value(bytes: Seq<u8>, b: bool)
    requires
        formula_postfix(bytes) is Ok,
    ensures
        !formula_postfix(bytes)->Ok_0.contains(Token::Value(b)),
{
    let infix = infix_tokens(bytes);
    law_conversion_keeps_operands(infix);
    lemma_no_value_is_read(bytes, b);
    lemma_operands_of_contains(infix, Token::Value(b));
    lemma_operands_of_contains(postfix_of(infix), Token::Value(b));
}

} // verus!
