//! Infix formulas to postfix token sequences.
//!
//! A formula is read as a sequence of bytes. Variables are the upper-case
//! letters `A` to `Z`; `~` negates, `&`, `v` and `->` join two operands, and
//! round brackets group. Blanks may stand anywhere.
//!
//! The conversion is a shunting yard in which the three binary operators share
//! one precedence and associate to the left, and in which `~` binds tighter
//! than any of them. What the yard does to a token sequence is defined by
//! [`Yard::step`]; [`shunting_yard`] computes exactly [`formula_postfix`].

use std::collections::HashSet;
use vstd::prelude::*;
use vstd::string::StringSliceAdditionalSpecFns;

verus! {

/// The byte ` `.
pub const SPACE: u8 = 0x20;

/// The byte `&`.
pub const AMPERSAND: u8 = 0x26;

/// The byte `(`.
pub const OPEN_PAREN: u8 = 0x28;

/// The byte `)`.
pub const CLOSED_PAREN: u8 = 0x29;

/// The byte `-`.
pub const HYPHEN: u8 = 0x2d;

/// The byte `>`.
pub const GREATER_THAN: u8 = 0x3e;

/// The byte `A`.
pub const UPPER_A: u8 = 0x41;

/// The byte `Z`.
pub const UPPER_Z: u8 = 0x5a;

/// The byte `v`.
pub const LOWER_V: u8 = 0x76;

/// The byte `~`.
pub const TILDE: u8 = 0x7e;

/// One lexical unit of a formula.
///
/// A variable is named by one byte. `Value` never comes out of the converter:
/// it stands only in sequences that a caller builds directly.
#[derive(Clone, Copy, Debug, PartialEq, Eq, Structural)]
pub enum Token {
    OpenParen,
    ClosedParen,
    LogicalOr,
    LogicalAnd,
    LogicalImp,
    LogicalNot,
    Variable(u8),
    Value(bool),
}

/// The token that a single byte stands for. A byte that is no symbol of the
/// grammar is taken for a variable name; whether it is a legal one is for the
/// converter to decide.
pub open spec fn token_of(lexeme: u8) -> Token {
    if lexeme == OPEN_PAREN {
        Token::OpenParen
    } else if lexeme == CLOSED_PAREN {
        Token::ClosedParen
    } else if lexeme == LOWER_V {
        Token::LogicalOr
    } else if lexeme == AMPERSAND {
        Token::LogicalAnd
    } else if lexeme == GREATER_THAN {
        Token::LogicalImp
    } else if lexeme == TILDE {
        Token::LogicalNot
    } else {
        Token::Variable(lexeme)
    }
}

impl From<u8> for Token {
    fn from(lexeme: u8) -> (token: Token) {
        if lexeme == OPEN_PAREN {
            Token::OpenParen
        } else if lexeme == CLOSED_PAREN {
            Token::ClosedParen
        } else if lexeme == LOWER_V {
            Token::LogicalOr
        } else if lexeme == AMPERSAND {
            Token::LogicalAnd
        } else if lexeme == GREATER_THAN {
            Token::LogicalImp
        } else if lexeme == TILDE {
            Token::LogicalNot
        } else {
            Token::Variable(lexeme)
        }
    }
}

impl vstd::std_specs::convert::FromSpecImpl<u8> for Token {
    open spec fn obeys_from_spec() -> bool {
        true
    }

    open spec fn from_spec(lexeme: u8) -> Token {
        token_of(lexeme)
    }
}

impl From<bool> for Token {
    fn from(literal: bool) -> (token: Token) {
        Token::Value(literal)
    }
}

impl vstd::std_specs::convert::FromSpecImpl<bool> for Token {
    open spec fn obeys_from_spec() -> bool {
        true
    }

    open spec fn from_spec(literal: bool) -> Token {
        Token::Value(literal)
    }
}

/// Why a formula was refused.
#[derive(Clone, Copy, Debug, PartialEq, Eq)]
pub enum ParseError {
    /// A byte that the grammar has no use for at this place: one outside the
    /// alphabet, or a `>` that no `-` stands directly before.
    InvalidCharacter { character: u8, index: usize },
    /// A `-` at `index` that no `>` directly follows; `found` is the byte
    /// after it, if there is one.
    IncompleteImplication { index: usize, found: Option<u8> },
}

/// Whether `b` names a variable.
pub open spec fn is_variable_byte(b: u8) -> bool {
    UPPER_A <= b <= UPPER_Z
}

/// Whether `b` is one of the single-byte symbols `(`, `)`, `&`, `v`, `~`.
pub open spec fn is_symbol_byte(b: u8) -> bool {
    b == OPEN_PAREN || b == CLOSED_PAREN || b == AMPERSAND || b == LOWER_V || b == TILDE
}

/// What is wrong with the byte at `i`, if anything. A `-` needs a `>` right
/// after it and a `>` needs a `-` right before it; every other byte is judged
/// by itself.
pub open spec fn fault_at(bytes: Seq<u8>, i: int) -> Option<ParseError>
    recommends
        0 <= i < bytes.len(),
{
    let b = bytes[i];
    if b == HYPHEN {
        if i + 1 < bytes.len() {
            if bytes[i + 1] == GREATER_THAN {
                None
            } else {
                Some(
                    ParseError::IncompleteImplication {
                        index: i as usize,
                        found: Some(bytes[i + 1]),
                    },
                )
            }
        } else {
            Some(ParseError::IncompleteImplication { index: i as usize, found: None })
        }
    } else if b == GREATER_THAN {
        if i > 0 && bytes[i - 1] == HYPHEN {
            None
        } else {
            Some(ParseError::InvalidCharacter { character: b, index: i as usize })
        }
    } else if b == SPACE || is_symbol_byte(b) || is_variable_byte(b) {
        None
    } else {
        Some(ParseError::InvalidCharacter { character: b, index: i as usize })
    }
}

/// The fault of the first faulty byte at or after `from`.
pub open spec fn first_fault(bytes: Seq<u8>, from: int) -> Option<ParseError>
    decreases bytes.len() - from,
{
    if from < 0 || from >= bytes.len() {
        None
    } else if fault_at(bytes, from) is Some {
        fault_at(bytes, from)
    } else {
        first_fault(bytes, from + 1)
    }
}

/// The tokens of a formula in the order in which they are written. Blanks
/// yield nothing, and neither does `-`: of an implication only the `>` counts.
pub open spec fn infix_tokens(bytes: Seq<u8>) -> Seq<Token>
    decreases bytes.len(),
{
    if bytes.len() == 0 {
        Seq::empty()
    } else if bytes.last() == SPACE || bytes.last() == HYPHEN {
        infix_tokens(bytes.drop_last())
    } else {
        infix_tokens(bytes.drop_last()).push(token_of(bytes.last()))
    }
}

/// The variables that a formula mentions.
pub open spec fn formula_variables(bytes: Seq<u8>) -> Set<u8> {
    Set::new(|v: u8| is_variable_byte(v) && bytes.contains(v))
}

/// The state of the conversion: what has been emitted, and the operators and
/// open brackets that wait, the most recent one last.
pub struct Yard {
    pub output: Seq<Token>,
    pub stack: Seq<Token>,
}

impl Yard {
    /// Nothing emitted, nothing waiting.
    pub open spec fn start() -> Yard {
        Yard { output: Seq::empty(), stack: Seq::empty() }
    }

    /// The waiting token on top is emitted.
    pub open spec fn emit_top(self) -> Yard
        recommends
            self.stack.len() > 0,
    {
        Yard { output: self.output.push(self.stack.last()), stack: self.stack.drop_last() }
    }

    /// Waiting tokens are emitted, top first, until an open bracket is on top
    /// or nothing waits.
    pub open spec fn unwind_to_paren(self) -> Yard
        decreases self.stack.len(),
    {
        if self.stack.len() > 0 && self.stack.last() != Token::OpenParen {
            self.emit_top().unwind_to_paren()
        } else {
            self
        }
    }

    /// The negations on top of the waiting tokens are emitted.
    pub open spec fn unwind_negations(self) -> Yard
        decreases self.stack.len(),
    {
        if self.stack.len() > 0 && self.stack.last() == Token::LogicalNot {
            self.emit_top().unwind_negations()
        } else {
            self
        }
    }

    /// `t` is put on top of the waiting tokens.
    pub open spec fn hold(self, t: Token) -> Yard {
        Yard { output: self.output, stack: self.stack.push(t) }
    }

    /// A closing bracket: everything above the nearest open bracket is
    /// emitted, and that bracket is dropped. Where no bracket is open,
    /// everything is emitted and nothing is dropped.
    pub open spec fn close_group(self) -> Yard {
        let y = self.unwind_to_paren();
        if y.stack.len() > 0 {
            Yard { output: y.output, stack: y.stack.drop_last() }
        } else {
            y
        }
    }

    /// The state after the next token of the formula.
    pub open spec fn step(self, t: Token) -> Yard {
        match t {
            Token::OpenParen => self.hold(t),
            Token::ClosedParen => self.close_group(),
            Token::LogicalOr | Token::LogicalAnd | Token::LogicalImp => self.unwind_to_paren().hold(
                t,
            ),
            Token::LogicalNot => self.unwind_negations().hold(t),
            Token::Variable(_) | Token::Value(_) => Yard {
                output: self.output.push(t),
                stack: self.stack,
            },
        }
    }

    /// The state after `tokens` more, taken from left to right.
    pub open spec fn feed(self, tokens: Seq<Token>) -> Yard
        decreases tokens.len(),
    {
        if tokens.len() == 0 {
            self
        } else {
            self.feed(tokens.drop_last()).step(tokens.last())
        }
    }

    /// The state after all of `tokens`.
    pub open spec fn run(tokens: Seq<Token>) -> Yard {
        Yard::start().feed(tokens)
    }

    /// The whole output: what was emitted, then what still waits, top first.
    pub open spec fn finish(self) -> Seq<Token> {
        self.output + self.stack.reverse()
    }
}

/// The postfix form of an infix token sequence.
pub open spec fn postfix_of(tokens: Seq<Token>) -> Seq<Token> {
    Yard::run(tokens).finish()
}

/// The postfix form of a formula, or the fault of its first faulty byte.
pub open spec fn formula_postfix(bytes: Seq<u8>) -> Result<Seq<Token>, ParseError> {
    match first_fault(bytes, 0) {
        Some(e) => Err(e),
        None => Ok(postfix_of(infix_tokens(bytes))),
    }
}

/// The conversion under way: the executable counterpart of [`Yard`].
struct Conversion {
    output: Vec<Token>,
    stack: Vec<Token>,
}

impl View for Conversion {
    type V = Yard;

    closed spec fn view(&self) -> Yard {
        Yard { output: self.output@, stack: self.stack@ }
    }
}

impl Conversion {
    fn new() -> (c: Conversion)
        ensures
            c@ == Yard::start(),
    {
        Conversion { output: Vec::new(), stack: Vec::new() }
    }

    fn emit(&mut self, t: Token)
        ensures
            final(self)@ == (Yard { output: old(self)@.output.push(t), stack: old(self)@.stack }),
    {
        self.output.push(t);
    }

    fn hold(&mut self, t: Token)
        ensures
            final(self)@ == old(self)@.hold(t),
    {
        self.stack.push(t);
    }

    fn unwind_to_paren(&mut self)
        ensures
            final(self)@ == old(self)@.unwind_to_paren(),
    {
        while self.stack.len() > 0 && self.stack[self.stack.len() - 1] != Token::OpenParen
            invariant
                self@.unwind_to_paren() == old(self)@.unwind_to_paren(),
            decreases self.stack.len(),
        {
            let top = self.stack[self.stack.len() - 1];
            self.stack.pop();
            self.output.push(top);
        }
    }

    fn unwind_negations(&mut self)
        ensures
            final(self)@ == old(self)@.unwind_negations(),
    {
        while self.stack.len() > 0 && self.stack[self.stack.len() - 1] == Token::LogicalNot
            invariant
                self@.unwind_negations() == old(self)@.unwind_negations(),
            decreases self.stack.len(),
        {
            let top = self.stack[self.stack.len() - 1];
            self.stack.pop();
            self.output.push(top);
        }
    }

    fn close_group(&mut self)
        ensures
            final(self)@ == old(self)@.close_group(),
    {
        self.unwind_to_paren();
        if self.stack.len() > 0 {
            self.stack.pop();
        }
    }

    fn finish(self) -> (postfix: Vec<Token>)
        ensures
            postfix@ == self@.finish(),
    {
        let mut output = self.output;
        let mut stack = self.stack;
        while stack.len() > 0
            invariant
                output@ + stack@.reverse() == self@.finish(),
            decreases stack.len(),
        {
            let top = stack[stack.len() - 1];
            proof {
                let rest = stack@.drop_last();
                assert(stack@.reverse() =~= seq![top] + rest.reverse());
                assert(output@.push(top) + rest.reverse() =~= output@ + stack@.reverse());
            }
            stack.pop();
            output.push(top);
        }
        proof {
            assert(output@ + stack@.reverse() =~= output@);
        }
        output
    }
}

/// Feeding the yard one more token is one more step.
pub proof fn lemma_feed_push(yard: Yard, tokens: Seq<Token>, t: Token)
    ensures
        yard.feed(tokens.push(t)) == yard.feed(tokens).step(t),
{
    assert(tokens.push(t).drop_last() =~= tokens);
}

/// Feeding the yard two sequences in turn is feeding it both at once.
pub proof fn lemma_feed_concat(yard: Yard, first: Seq<Token>, second: Seq<Token>)
    ensures
        yard.feed(first + second) == yard.feed(first).feed(second),
    decreases second.len(),
{
    if second.len() == 0 {
        assert(first + second =~= first);
    } else {
        lemma_feed_concat(yard, first, second.drop_last());
        assert((first + second).drop_last() =~= first + second.drop_last());
    }
}

/// The variables of a formula with one more byte.
pub proof fn lemma_formula_variables_push(bytes: Seq<u8>, b: u8)
    ensures
        formula_variables(bytes.push(b)) == if is_variable_byte(b) {
            formula_variables(bytes).insert(b)
        } else {
            formula_variables(bytes)
        },
{
    let longer = bytes.push(b);
    assert forall|v: u8| longer.contains(v) <==> bytes.contains(v) || v == b by {
        if bytes.contains(v) {
            let k = choose|k: int| 0 <= k < bytes.len() && bytes[k] == v;
            assert(longer[k] == v);
        }
        if v == b {
            assert(longer[bytes.len() as int] == v);
        }
    }
    if is_variable_byte(b) {
        assert(formula_variables(longer) =~= formula_variables(bytes).insert(b));
    } else {
        assert(formula_variables(longer) =~= formula_variables(bytes));
    }
}

/// A formula none of whose bytes has a fault has no first fault.
pub proof fn lemma_no_fault(bytes: Seq<u8>, from: int)
    requires
        0 <= from,
        forall|i: int| from <= i < bytes.len() ==> fault_at(bytes, i) is None,
    ensures
        first_fault(bytes, from) is None,
    decreases bytes.len() - from,
{
    if from < bytes.len() {
        lemma_no_fault(bytes, from + 1);
    }
}

/// The tokens of a formula with one more byte.
pub proof fn lemma_infix_tokens_push(bytes: Seq<u8>, b: u8)
    ensures
        infix_tokens(bytes.push(b)) == if b == SPACE || b == HYPHEN {
            infix_tokens(bytes)
        } else {
            infix_tokens(bytes).push(token_of(b))
        },
{
    assert(bytes.push(b).drop_last() =~= bytes);
}

/// Converts an infix formula to postfix and collects its variables.
///
/// The formula is refused for its first faulty byte: one outside the grammar,
/// a `-` without `>` after it, or a `>` without `-` before it. Brackets are not
/// counted: a closing bracket that nothing opened closes whatever waits, and a
/// bracket left open is emitted at the end with the waiting operators. A
/// negation sends a negation that waits on top to the output, so of two
/// negations written one after the other the first comes out before its
/// operand: the inner one wants brackets, as in `~(~A)`.
pub fn shunting_yard(input: &str) -> (r: Result<(Vec<Token>, HashSet<u8>), ParseError>)
    ensures
        match r {
            Ok((tokens, variables)) => {
                &&& formula_postfix(input.spec_bytes()) == Ok::<Seq<Token>, ParseError>(tokens@)
                &&& variables@ == formula_variables(input.spec_bytes())
            },
            Err(e) => formula_postfix(input.spec_bytes()) == Err::<Seq<Token>, ParseError>(e),
        },
{
    broadcast use vstd::std_specs::hash::group_hash_axioms;

    let bytes = input.as_bytes();
    let mut yard = Conversion::new();
    let mut variables: HashSet<u8> = HashSet::new();
    let mut i: usize = 0;
    proof {
        assert(bytes@.take(0) =~= Seq::<u8>::empty());
        assert(formula_variables(bytes@.take(0)) =~= Set::<u8>::empty());
    }
    while i < bytes.len()
        invariant
            bytes@ == input.spec_bytes(),
            i <= bytes@.len(),
            first_fault(bytes@, 0) == first_fault(bytes@, i as int),
            yard@ == Yard::run(infix_tokens(bytes@.take(i as int))),
            variables@ == formula_variables(bytes@.take(i as int)),
        decreases bytes@.len() - i,
    {
        let c = bytes[i];
        proof {
            let read = bytes@.take(i as int);
            assert(bytes@.take(i + 1) =~= read.push(c));
            lemma_infix_tokens_push(read, c);
            lemma_feed_push(Yard::start(), infix_tokens(read), token_of(c));
            lemma_formula_variables_push(read, c);
        }
        if c == AMPERSAND || c == LOWER_V {
            yard.unwind_to_paren();
            yard.hold(Token::from(c));
        } else if c == GREATER_THAN {
            if i == 0 || bytes[i - 1] != HYPHEN {
                return Err(ParseError::InvalidCharacter { character: c, index: i });
            }
            yard.unwind_to_paren();
            yard.hold(Token::LogicalImp);
        } else if c == TILDE {
            yard.unwind_negations();
            yard.hold(Token::LogicalNot);
        } else if c == OPEN_PAREN {
            yard.hold(Token::OpenParen);
        } else if c == CLOSED_PAREN {
            yard.close_group();
        } else if UPPER_A <= c && c <= UPPER_Z {
            yard.emit(Token::Variable(c));
            variables.insert(c);
        } else if c == SPACE {
        } else if c == HYPHEN {
            if i + 1 >= bytes.len() {
                return Err(ParseError::IncompleteImplication { index: i, found: None });
            }
            let next = bytes[i + 1];
            if next != GREATER_THAN {
                return Err(ParseError::IncompleteImplication { index: i, found: Some(next) });
            }
        } else {
            return Err(ParseError::InvalidCharacter { character: c, index: i });
        }
        i += 1;
    }
    proof {
        assert(bytes@.take(i as int) =~= bytes@);
    }
    Ok((yard.finish(), variables))
}

/// The postfix forms of a list of formulas, or the fault of the first formula
/// that has one.
pub open spec fn formulas_postfix(formulas: Seq<Seq<u8>>) -> Result<Seq<Seq<Token>>, ParseError>
    decreases formulas.len(),
{
    if formulas.len() == 0 {
        Ok(Seq::empty())
    } else {
        match formulas_postfix(formulas.drop_last()) {
            Err(e) => Err(e),
            Ok(converted) => match formula_postfix(formulas.last()) {
                Err(e) => Err(e),
                Ok(tokens) => Ok(converted.push(tokens)),
            },
        }
    }
}

/// The variables that any of a list of formulas mentions.
pub open spec fn formulas_variables(formulas: Seq<Seq<u8>>) -> Set<u8>
    decreases formulas.len(),
{
    if formulas.len() == 0 {
        Set::empty()
    } else {
        formulas_variables(formulas.drop_last()).union(formula_variables(formulas.last()))
    }
}

/// The bytes of each formula of a list.
pub open spec fn formulas_bytes(formulas: Seq<&str>) -> Seq<Seq<u8>> {
    formulas.map_values(|f: &str| f.spec_bytes())
}

/// The token sequences that a vector of converted formulas holds.
pub open spec fn formulas_view(formulas: Seq<Vec<Token>>) -> Seq<Seq<Token>> {
    formulas.map_values(|f: Vec<Token>| f@)
}

/// Once a formula has a fault, no longer list of formulas converts.
pub proof fn lemma_formulas_postfix_fails(formulas: Seq<Seq<u8>>, k: int)
    requires
        0 <= k <= formulas.len(),
        formulas_postfix(formulas.take(k)) is Err,
    ensures
        formulas_postfix(formulas) == formulas_postfix(formulas.take(k)),
    decreases formulas.len(),
{
    if k == formulas.len() {
        assert(formulas.take(k) =~= formulas);
    } else {
        assert(formulas.drop_last().take(k) =~= formulas.take(k));
        lemma_formulas_postfix_fails(formulas.drop_last(), k);
    }
}

/// The members of `set` below `bound`.
pub open spec fn members_below(set: Set<u8>, bound: int) -> Set<u8> {
    Set::new(|v: u8| set.contains(v) && v < bound)
}

/// Adds the members of `other` to `into`.
fn merge_variables(into: &mut HashSet<u8>, other: &HashSet<u8>)
    ensures
        final(into)@ == old(into)@.union(other@),
{
    broadcast use vstd::std_specs::hash::group_hash_axioms;

    let mut bound: u16 = 0;
    proof {
        assert(into@ =~= old(into)@.union(members_below(other@, 0)));
    }
    while bound < 256
        invariant
            bound <= 256,
            into@ == old(into)@.union(members_below(other@, bound as int)),
        decreases 256 - bound,
    {
        let candidate = bound as u8;
        if other.contains(&candidate) {
            into.insert(candidate);
            proof {
                assert(members_below(other@, bound + 1) =~= members_below(
                    other@,
                    bound as int,
                ).insert(candidate));
                assert(into@ =~= old(into)@.union(members_below(other@, bound + 1)));
            }
        } else {
            proof {
                assert(members_below(other@, bound + 1) =~= members_below(other@, bound as int));
            }
        }
        bound += 1;
    }
    proof {
        assert(members_below(other@, 256) =~= other@);
    }
}

/// Converts every formula of a list to postfix and collects the variables of
/// all of them. The first formula that is refused ends the conversion.
pub fn parse_formulas(formulas: &[&str]) -> (r: Result<(Vec<Vec<Token>>, HashSet<u8>), ParseError>)
    ensures
        match r {
            Ok((converted, variables)) => {
                &&& formulas_postfix(formulas_bytes(formulas@)) == Ok::<
                    Seq<Seq<Token>>,
                    ParseError,
                >(formulas_view(converted@))
                &&& variables@ == formulas_variables(formulas_bytes(formulas@))
            },
            Err(e) => formulas_postfix(formulas_bytes(formulas@)) == Err::<
                Seq<Seq<Token>>,
                ParseError,
            >(e),
        },
{
    let ghost all = formulas_bytes(formulas@);
    let mut converted: Vec<Vec<Token>> = Vec::new();
    let mut variables: HashSet<u8> = HashSet::new();
    let mut k: usize = 0;
    proof {
        assert(all.take(0) =~= Seq::<Seq<u8>>::empty());
        assert(formulas_view(converted@) =~= Seq::<Seq<Token>>::empty());
    }
    while k < formulas.len()
        invariant
            all == formulas_bytes(formulas@),
            k <= formulas@.len(),
            formulas_postfix(all.take(k as int)) == Ok::<Seq<Seq<Token>>, ParseError>(
                formulas_view(converted@),
            ),
            variables@ == formulas_variables(all.take(k as int)),
        decreases formulas@.len() - k,
    {
        proof {
            assert(all.take(k + 1).drop_last() =~= all.take(k as int));
            assert(all.take(k + 1).last() == formulas@[k as int].spec_bytes());
        }
        match shunting_yard(formulas[k]) {
            Ok((tokens, mentioned)) => {
                proof {
                    assert(formulas_view(converted@.push(tokens)) =~= formulas_view(
                        converted@,
                    ).push(tokens@));
                }
                converted.push(tokens);
                merge_variables(&mut variables, &mentioned);
            },
            Err(e) => {
                proof {
                    lemma_formulas_postfix_fails(all, (k + 1) as int);
                }
                return Err(e);
            },
        }
        k += 1;
    }
    proof {
        assert(all.take(k as int) =~= all);
    }
    Ok((converted, variables))
}

} // verus!
