//! The expression evaluator: tokenizer, postfix reordering, evaluation.

pub mod calculator_button;
pub mod chains;
pub mod scanning;
pub mod trees;

use vstd::prelude::*;
use crate::binary32::Binary32;
use crate::text::{is_numeric, numeric, pop_char, push_char};

verus! {

/// A binary arithmetic operator.
#[derive(Clone, Copy, Debug, PartialEq, Eq, PartialOrd, Ord, Structural)]
pub enum Operator {
    Add,
    Sub,
    Mul,
    Div,
}

impl Operator {
    /// The precedence weight: additive operators bind less tightly than
    /// multiplicative ones.
    pub open spec fn weight(self) -> int {
        match self {
            Operator::Add | Operator::Sub => 0,
            Operator::Mul | Operator::Div => 5,
        }
    }

    /// The precedence weight of the operator.
    pub fn value(&self) -> (w: u16)
        ensures
            w == self.weight(),
    {
        match self {
            Operator::Add => 0,
            Operator::Sub => 0,
            Operator::Mul => 5,
            Operator::Div => 5,
        }
    }

    /// What the operator makes of two operands.
    pub open spec fn applied(self, left: Binary32, right: Binary32) -> Binary32 {
        match self {
            Operator::Add => left.sum(right),
            Operator::Sub => left.difference(right),
            Operator::Mul => left.product(right),
            Operator::Div => left.quotient(right),
        }
    }

    /// Applies the operator to two operands.
    pub fn apply(self, left: Binary32, right: Binary32) -> (r: Binary32)
        ensures
            r == self.applied(left, right),
    {
        match self {
            Operator::Add => left.add(right),
            Operator::Sub => left.sub(right),
            Operator::Mul => left.mul(right),
            Operator::Div => left.div(right),
        }
    }
}

/// One lexical unit of an expression.
#[derive(Clone, Copy, Debug, PartialEq, PartialOrd)]
pub enum Token {
    Number(Binary32),
    Operator(Operator),
    Bracket(char),
}

/// Why a text is not an expression.
#[derive(Clone, Copy, Debug, PartialEq, Eq, Structural)]
pub enum Error {
    /// A character outside the alphabet of expressions.
    BadToken(char),
    /// A closing bracket without an open one, or a bracket left open.
    MismatchedParens,
}

/// What the keys of the calculator send.
#[derive(Clone, Copy, Debug)]
pub enum Message {
    /// The key of a character of the expression.
    Edit(char),
    /// The key that empties the expression.
    Clear,
    /// The key that asks for the result.
    Resolve,
}

/// The state of the tokenizer between two characters.
pub struct Scan {
    /// The tokens read so far.
    pub tokens: Seq<Token>,
    /// How many brackets are open.
    pub open_brackets: nat,
    /// Whether digits now extend the fraction of the last number.
    pub in_fraction: bool,
    /// The weight of the next fraction digit.
    pub place: Binary32,
}

/// One tenth, rounded: the weight of the first fraction digit.
pub open spec fn tenth() -> Binary32 {
    Binary32 { bits: 0x3dcc_cccd }
}

/// The state before the first character.
pub open spec fn scan_start() -> Scan {
    Scan { tokens: Seq::empty(), open_brackets: 0, in_fraction: false, place: tenth() }
}

/// Whether `c` is a decimal digit.
pub open spec fn is_digit(c: char) -> bool {
    48 <= c as int <= 57
}

/// The number that the digit `c` stands for.
pub open spec fn digit_number(c: char) -> Binary32 {
    Binary32::of_int(c as int - 48)
}

/// The operator that `c` is the sign of, if any.
pub open spec fn operator_of(c: char) -> Option<Operator> {
    if c == '+' {
        Some(Operator::Add)
    } else if c == '-' {
        Some(Operator::Sub)
    } else if c == '*' {
        Some(Operator::Mul)
    } else if c == '/' {
        Some(Operator::Div)
    } else {
        None
    }
}

/// The tokens `tokens` after the digit `c`: it extends a number that ends
/// them, in its whole part or in its fraction, and else begins a number.
pub open spec fn with_digit(tokens: Seq<Token>, in_fraction: bool, place: Binary32, c: char) -> Seq<
    Token,
> {
    let digit = digit_number(c);
    if tokens.len() > 0 && tokens.last() is Number {
        let n = tokens.last()->Number_0;
        let extended = if in_fraction {
            n.sum(digit.product(place))
        } else {
            n.product(Binary32::of_int(10)).sum(digit)
        };
        tokens.drop_last().push(Token::Number(extended))
    } else {
        tokens.push(Token::Number(digit))
    }
}

/// The tokenizer's step on the character `c`.
pub open spec fn scan_step(s: Scan, c: char) -> Result<Scan, Error> {
    if is_digit(c) {
        let extends_fraction = s.in_fraction && s.tokens.len() > 0 && s.tokens.last() is Number;
        Ok(
            Scan {
                tokens: with_digit(s.tokens, s.in_fraction, s.place, c),
                place: if extends_fraction {
                    s.place.product(tenth())
                } else {
                    s.place
                },
                ..s
            },
        )
    } else if c == '.' {
        Ok(Scan { in_fraction: true, place: tenth(), ..s })
    } else if c == '(' {
        Ok(
            Scan {
                tokens: s.tokens.push(Token::Bracket('(')),
                open_brackets: s.open_brackets + 1,
                in_fraction: false,
                ..s
            },
        )
    } else if c == ')' {
        if s.open_brackets == 0 {
            Err(Error::MismatchedParens)
        } else {
            Ok(
                Scan {
                    tokens: s.tokens.push(Token::Bracket(')')),
                    open_brackets: (s.open_brackets - 1) as nat,
                    in_fraction: false,
                    ..s
                },
            )
        }
    } else if operator_of(c) is Some {
        Ok(
            Scan {
                tokens: s.tokens.push(Token::Operator(operator_of(c)->Some_0)),
                in_fraction: false,
                ..s
            },
        )
    } else if c == ' ' || c == '\n' {
        Ok(Scan { in_fraction: false, ..s })
    } else {
        Err(Error::BadToken(c))
    }
}

/// The tokenizer's state after the whole of `text`, or the first error.
pub open spec fn scan(text: Seq<char>) -> Result<Scan, Error>
    decreases text.len(),
{
    if text.len() == 0 {
        Ok(scan_start())
    } else {
        match scan(text.drop_last()) {
            Ok(s) => scan_step(s, text.last()),
            Err(e) => Err(e),
        }
    }
}

/// The tokens of `text`: those of the scan, if it meets no error and leaves
/// no bracket open.
pub open spec fn tokens_of(text: Seq<char>) -> Result<Seq<Token>, Error> {
    match scan(text) {
        Ok(s) => if s.open_brackets > 0 {
            Err(Error::MismatchedParens)
        } else {
            Ok(s.tokens)
        },
        Err(e) => Err(e),
    }
}

/// The view of a tokenizer result.
pub open spec fn tokens_view(r: Result<Vec<Token>, Error>) -> Result<Seq<Token>, Error> {
    match r {
        Ok(v) => Ok(v@),
        Err(e) => Err(e),
    }
}

/// The output queue and the operator stack after every operator at the top
/// of the stack whose weight is at least `weight` has moved to the queue.
pub open spec fn pop_operators(queue: Seq<Token>, stack: Seq<Token>, weight: int) -> (
    Seq<Token>,
    Seq<Token>,
)
    decreases stack.len(),
{
    if yields_to(stack, weight) {
        pop_operators(queue.push(stack.last()), stack.drop_last(), weight)
    } else {
        (queue, stack)
    }
}

/// Whether the top of `stack` is an operator that an incoming operator of
/// weight `weight` sends to the queue before it.
pub open spec fn yields_to(stack: Seq<Token>, weight: int) -> bool {
    &&& stack.len() > 0
    &&& stack.last() matches Token::Operator(top)
    &&& top.weight() >= weight
}

/// Whether the top of `stack` is there and is not an opening bracket.
pub open spec fn above_bracket(stack: Seq<Token>) -> bool {
    stack.len() > 0 && stack.last() != Token::Bracket('(')
}

/// The output queue and the operator stack after everything above the
/// innermost opening bracket has moved to the queue.
pub open spec fn pop_to_bracket(queue: Seq<Token>, stack: Seq<Token>) -> (Seq<Token>, Seq<Token>)
    decreases stack.len(),
{
    if above_bracket(stack) {
        pop_to_bracket(queue.push(stack.last()), stack.drop_last())
    } else {
        (queue, stack)
    }
}

/// The reordering's step on one token, from and to the output queue and
/// the operator stack, whose top is its end.
pub open spec fn yard_step(queue: Seq<Token>, stack: Seq<Token>, token: Token) -> (
    Seq<Token>,
    Seq<Token>,
) {
    match token {
        Token::Number(_) => (queue.push(token), stack),
        Token::Operator(op) => {
            let popped = pop_operators(queue, stack, op.weight());
            (popped.0, popped.1.push(token))
        },
        Token::Bracket(c) => if c == '(' {
            (queue, stack.push(token))
        } else if c == ')' {
            let popped = pop_to_bracket(queue, stack);
            (
                popped.0,
                if popped.1.len() > 0 {
                    popped.1.drop_last()
                } else {
                    popped.1
                },
            )
        } else {
            (queue, stack)
        },
    }
}

/// The output queue and the operator stack after all of `tokens`.
pub open spec fn yard(tokens: Seq<Token>) -> (Seq<Token>, Seq<Token>)
    decreases tokens.len(),
{
    if tokens.len() == 0 {
        (Seq::empty(), Seq::empty())
    } else {
        let before = yard(tokens.drop_last());
        yard_step(before.0, before.1, tokens.last())
    }
}

/// The postfix order of the infix `tokens`: the output queue, then what is
/// left on the stack, top first.
pub open spec fn postfix(tokens: Seq<Token>) -> Seq<Token> {
    let end = yard(tokens);
    end.0 + end.1.reverse()
}

/// The evaluator's stack after one more token, `None` once an operator
/// found fewer than two operands. The right operand is the top of the stack.
pub open spec fn eval_step(stack: Option<Seq<Binary32>>, token: Token) -> Option<Seq<Binary32>> {
    match stack {
        None => None,
        Some(s) => match token {
            Token::Number(n) => Some(s.push(n)),
            Token::Operator(op) => if s.len() < 2 {
                None
            } else {
                Some(s.take(s.len() - 2).push(op.applied(s[s.len() - 2], s[s.len() - 1])))
            },
            Token::Bracket(_) => Some(s),
        },
    }
}

/// The evaluator's stack after all of `tokens`.
pub open spec fn eval_stack(tokens: Seq<Token>) -> Option<Seq<Binary32>>
    decreases tokens.len(),
{
    if tokens.len() == 0 {
        Some(Seq::empty())
    } else {
        eval_step(eval_stack(tokens.drop_last()), tokens.last())
    }
}

/// The value of the postfix `tokens`: the one number left on the stack.
pub open spec fn value_of(tokens: Seq<Token>) -> Option<Binary32> {
    match eval_stack(tokens) {
        Some(s) => if s.len() == 1 {
            Some(s[0])
        } else {
            None
        },
        None => None,
    }
}

/// What an expression resolves to: the text of the value of its tokens in
/// postfix order, and nothing where it has no tokens or no value.
pub open spec fn resolved(text: Seq<char>) -> Option<Seq<char>> {
    match tokens_of(text) {
        Ok(tokens) => match value_of(postfix(tokens)) {
            Some(x) => Some(x.text()),
            None => None,
        },
        Err(_) => None,
    }
}

/// How often `c` occurs in `text`.
pub open spec fn occurrences(text: Seq<char>, c: char) -> nat
    decreases text.len(),
{
    if text.len() == 0 {
        0
    } else {
        occurrences(text.drop_last(), c) + if text.last() == c {
            1nat
        } else {
            0nat
        }
    }
}

/// Whether the character `element` may follow `last`, the last character
/// of the expression or a question mark where it is empty, which is
/// numeric or not as `last_numeric` says. A point follows only a numeric
/// character; an operator, a numeric character or a closing bracket; a
/// closing bracket, a numeric character; an opening bracket, anything but
/// a numeric character, a point or a closing bracket.
pub open spec fn may_follow(last: char, last_numeric: bool, element: char) -> bool {
    &&& element == '.' ==> last_numeric
    &&& operator_of(element) is Some ==> last_numeric || last == ')'
    &&& element == ')' ==> last_numeric
    &&& element == '(' ==> !(last_numeric || last == '.' || last == ')')
}

/// The expression that a key adds to: a lone zero gives way to anything
/// but a point.
pub open spec fn edit_base(expression: Seq<char>, element: char) -> Seq<char> {
    if expression == seq!['0'] && element != '.' {
        Seq::empty()
    } else {
        expression
    }
}

/// The last character of `text`, a question mark where there is none.
pub open spec fn last_or_mark(text: Seq<char>) -> char {
    if text.len() > 0 {
        text.last()
    } else {
        '?'
    }
}

/// The expression after the key of the character `element`.
pub open spec fn edited(expression: Seq<char>, element: char) -> Seq<char> {
    let base = edit_base(expression, element);
    let last = last_or_mark(base);
    if may_follow(last, numeric(last), element) {
        base.push(element)
    } else {
        expression
    }
}

/// The text of an optional string.
pub open spec fn text_view(s: Option<String>) -> Option<Seq<char>> {
    match s {
        Some(t) => Some(t@),
        None => None,
    }
}

/// The calculator: an expression under edit and its last result.
pub struct Calculator {
    expression: String,
    result: Option<String>,
}

impl Calculator {
    /// The expression under edit.
    pub closed spec fn input(&self) -> Seq<char> {
        self.expression@
    }

    /// The last result, if the last expression resolved had one.
    pub closed spec fn outcome(&self) -> Option<Seq<char>> {
        text_view(self.result)
    }

    /// A calculator that shows a lone zero and has no result.
    pub fn new() -> (r: Calculator)
        ensures
            r.input() == seq!['0'],
            r.outcome() is None,
    {
        let mut expression = String::new();
        push_char(&mut expression, '0');
        proof {
            assert(expression@ =~= seq!['0']);
        }
        Calculator { expression, result: None }
    }

    /// The expression under edit.
    pub fn input_text(&self) -> (r: &String)
        ensures
            r@ == self.input(),
    {
        &self.expression
    }

    /// The last result.
    pub fn outcome_text(&self) -> (r: &Option<String>)
        ensures
            text_view(*r) == self.outcome(),
    {
        &self.result
    }

    /// Whether the character `element` may follow `last`, which is numeric
    /// or not as `last_numeric` says.
    pub fn accepts(last: char, last_numeric: bool, element: char) -> (r: bool)
        ensures
            r == may_follow(last, last_numeric, element),
    {
        if element == '.' && !last_numeric {
            return false;
        }
        if (element == '+' || element == '-' || element == '/' || element == '*') && (!last_numeric
            && last != ')') {
            return false;
        }
        if element == ')' && !last_numeric {
            return false;
        }
        if element == '(' && (last_numeric || last == '.' || last == ')') {
            return false;
        }
        true
    }

    /// Whether `text` is a zero and nothing else.
    fn is_lone_zero(text: &String) -> (r: bool)
        ensures
            r == (text@ == seq!['0']),
    {
        let mut rest = text.clone();
        match pop_char(&mut rest) {
            Some(c) => {
                let end = pop_char(&mut rest);
                proof {
                    if text@.len() == 1 {
                        assert(text@ =~= seq![c]);
                    }
                }
                c == '0' && end.is_none()
            },
            None => false,
        }
    }

    /// The last character of `text`, a question mark where there is none.
    fn last_char(text: &String) -> (r: char)
        ensures
            r == last_or_mark(text@),
    {
        let mut rest = text.clone();
        match pop_char(&mut rest) {
            Some(c) => c,
            None => '?',
        }
    }

    /// Takes a key: a character extends the expression where the editing
    /// rules admit it, and else changes nothing; clearing empties the
    /// expression; resolving puts the result, or nothing, in its place.
    pub fn update(&mut self, message: Message)
        ensures
            match message {
                Message::Edit(element) => {
                    &&& final(self).input() == edited(old(self).input(), element)
                    &&& final(self).outcome() == old(self).outcome()
                },
                Message::Clear => {
                    &&& final(self).input() == Seq::<char>::empty()
                    &&& final(self).outcome() == old(self).outcome()
                },
                Message::Resolve => {
                    &&& final(self).outcome() == resolved(old(self).input())
                    &&& final(self).input() == match resolved(old(self).input()) {
                        Some(t) => t,
                        None => Seq::<char>::empty(),
                    }
                },
            },
    {
        match message {
            Message::Edit(element) => {
                let mut owned = self.expression.clone();
                if Self::is_lone_zero(&owned) && element != '.' {
                    pop_char(&mut owned);
                    proof {
                        assert(owned@ =~= Seq::<char>::empty());
                    }
                }
                let last = Self::last_char(&owned);
                if Self::accepts(last, is_numeric(last), element) {
                    push_char(&mut owned, element);
                    self.expression = owned;
                }
            },
            Message::Clear => {
                self.expression = String::new();
            },
            Message::Resolve => {
                let result = Self::resolve(self.expression.clone());
                self.expression = match &result {
                    Some(t) => t.clone(),
                    None => String::new(),
                };
                self.result = result;
            },
        }
    }
}

impl Calculator {
    /// Splits `expr` into tokens.
    pub fn parse(expr: &str) -> (r: Result<Vec<Token>, Error>)
        ensures
            tokens_view(r) == tokens_of(expr@),
    {
        let mut tokens: Vec<Token> = Vec::new();
        let mut brackets: Vec<char> = Vec::new();
        let mut in_fraction = false;
        let mut place = Binary32::from_bits(0x3dcc_cccd);
        let ghost text = expr@;
        for c in it: expr.chars()
            invariant
                it.seq() == text,
                text == expr@,
                scan(text.take(it.index() as int)) == Ok::<Scan, Error>(
                    Scan { tokens: tokens@, open_brackets: brackets@.len(), in_fraction, place },
                ),
        {
            proof {
                assert(text.take(it.index() + 1).drop_last() =~= text.take(it.index() as int));
            }
            let ghost before = Scan {
                tokens: tokens@,
                open_brackets: brackets@.len(),
                in_fraction,
                place,
            };
            if c >= '0' && c <= '9' {
                let digit = Binary32::from_u32(c as u32 - 48);
                let len = tokens.len();
                let last = if len > 0 { Some(tokens[len - 1]) } else { None };
                match last {
                    Some(Token::Number(n)) => {
                        if in_fraction {
                            tokens.set(len - 1, Token::Number(n.add(digit.mul(place))));
                            place = place.mul(Binary32::from_bits(0x3dcc_cccd));
                        } else {
                            tokens.set(
                                len - 1,
                                Token::Number(n.mul(Binary32::from_u32(10)).add(digit)),
                            );
                        }
                        proof {
                            assert(tokens@ =~= with_digit(
                                before.tokens,
                                before.in_fraction,
                                before.place,
                                c,
                            ));
                        }
                    },
                    _ => {
                        tokens.push(Token::Number(digit));
                    },
                }
            } else if c == '.' {
                in_fraction = true;
                place = Binary32::from_bits(0x3dcc_cccd);
            } else if c == '(' {
                tokens.push(Token::Bracket('('));
                brackets.push(c);
                in_fraction = false;
            } else if c == ')' {
                if brackets.pop().is_none() {
                    proof {
                        Self::lemma_scan_error_lasts(text, it.index() + 1);
                    }
                    return Err(Error::MismatchedParens);
                }
                tokens.push(Token::Bracket(')'));
                in_fraction = false;
            } else if c == '+' {
                tokens.push(Token::Operator(Operator::Add));
                in_fraction = false;
            } else if c == '-' {
                tokens.push(Token::Operator(Operator::Sub));
                in_fraction = false;
            } else if c == '*' {
                tokens.push(Token::Operator(Operator::Mul));
                in_fraction = false;
            } else if c == '/' {
                tokens.push(Token::Operator(Operator::Div));
                in_fraction = false;
            } else if c == ' ' || c == '\n' {
                in_fraction = false;
            } else {
                proof {
                    Self::lemma_scan_error_lasts(text, it.index() + 1);
                }
                return Err(Error::BadToken(c));
            }
        }
        proof {
            assert(text.take(text.len() as int) =~= text);
        }
        if brackets.len() > 0 {
            return Err(Error::MismatchedParens);
        }
        Ok(tokens)
    }

    /// Evaluates the expression `expression` and writes its value as text.
    pub fn resolve(expression: String) -> (r: Option<String>)
        ensures
            match r {
                Some(s) => resolved(expression@) == Some(s@),
                None => resolved(expression@) is None,
            },
    {
        match Self::parse(expression.as_str()) {
            Ok(tokens) => match Self::evaluate(Self::expression(tokens)) {
                Some(x) => Some(x.to_text()),
                None => None,
            },
            Err(_) => None,
        }
    }

    /// Counts the occurrences of `c` in `expr`.
    pub fn count_char(c: char, expr: String) -> (n: u32)
        requires
            occurrences(expr@, c) <= u32::MAX,
        ensures
            n == occurrences(expr@, c),
    {
        let mut n: u32 = 0;
        let ghost text = expr@;
        for x in it: expr.as_str().chars()
            invariant
                it.seq() == text,
                text == expr@,
                n == occurrences(text.take(it.index() as int), c),
                occurrences(text, c) <= u32::MAX,
        {
            proof {
                assert(text.take(it.index() + 1).drop_last() =~= text.take(it.index() as int));
                lemma_occurrences_grow(text, c, it.index() + 1);
            }
            if x == c {
                n += 1;
            }
        }
        proof {
            assert(text.take(text.len() as int) =~= text);
        }
        n
    }

    /// Whether the top of `stack` is an operator of weight `weight` or more.
    fn top_yields(stack: &Vec<Token>, weight: u16) -> (r: bool)
        ensures
            r == yields_to(stack@, weight as int),
    {
        let len = stack.len();
        if len == 0 {
            return false;
        }
        match stack[len - 1] {
            Token::Operator(top) => top.value() >= weight,
            _ => false,
        }
    }

    /// Whether the top of `stack` is there and is not an opening bracket.
    fn top_above_bracket(stack: &Vec<Token>) -> (r: bool)
        ensures
            r == above_bracket(stack@),
    {
        let len = stack.len();
        if len == 0 {
            return false;
        }
        match stack[len - 1] {
            Token::Bracket(c) => c != '(',
            _ => true,
        }
    }

    /// Reorders infix `tokens` into postfix order.
    pub fn expression(tokens: Vec<Token>) -> (r: Vec<Token>)
        ensures
            r@ == postfix(tokens@),
    {
        let mut queue: Vec<Token> = Vec::new();
        let mut stack: Vec<Token> = Vec::new();
        let n = tokens.len();
        let mut i: usize = 0;
        while i < n
            invariant
                i <= n,
                n == tokens.len(),
                (queue@, stack@) == yard(tokens@.take(i as int)),
            decreases n - i,
        {
            proof {
                assert(tokens@.take(i + 1).drop_last() =~= tokens@.take(i as int));
            }
            let token = tokens[i];
            let ghost queue_before = queue@;
            let ghost stack_before = stack@;
            match token {
                Token::Number(_) => {
                    queue.push(token);
                },
                Token::Operator(op) => {
                    let weight = op.value();
                    while Self::top_yields(&stack, weight)
                        invariant
                            pop_operators(queue@, stack@, weight as int) == pop_operators(
                                queue_before,
                                stack_before,
                                weight as int,
                            ),
                        decreases stack.len(),
                    {
                        let top = stack.pop().unwrap();
                        queue.push(top);
                    }
                    stack.push(token);
                },
                Token::Bracket(c) => {
                    if c == '(' {
                        stack.push(token);
                    } else if c == ')' {
                        while Self::top_above_bracket(&stack)
                            invariant
                                pop_to_bracket(queue@, stack@) == pop_to_bracket(
                                    queue_before,
                                    stack_before,
                                ),
                            decreases stack.len(),
                        {
                            let top = stack.pop().unwrap();
                            queue.push(top);
                        }
                        stack.pop();
                    }
                },
            }
            i += 1;
        }
        proof {
            assert(tokens@.take(n as int) =~= tokens@);
        }
        while stack.len() > 0
            invariant
                queue@ + stack@.reverse() == postfix(tokens@),
            decreases stack.len(),
        {
            let ghost queue_before = queue@;
            let ghost stack_before = stack@;
            let top = stack.pop().unwrap();
            queue.push(top);
            proof {
                assert(stack_before.reverse() =~= seq![top] + stack@.reverse());
                assert(queue@ + stack@.reverse() =~= queue_before + stack_before.reverse());
            }
        }
        proof {
            assert(stack@.reverse() =~= Seq::<Token>::empty());
            assert(queue@ + stack@.reverse() =~= queue@);
        }
        queue
    }

    /// Evaluates postfix `tokens` on a stack of numbers. The value depends
    /// on the tokens alone: equal sequences have equal values, however often
    /// they are evaluated.
    pub fn evaluate(tokens: Vec<Token>) -> (r: Option<Binary32>)
        ensures
            r == value_of(tokens@),
    {
        let mut stack: Vec<Binary32> = Vec::new();
        let n = tokens.len();
        let mut i: usize = 0;
        while i < n
            invariant
                i <= n,
                n == tokens.len(),
                eval_stack(tokens@.take(i as int)) == Some(stack@),
            decreases n - i,
        {
            proof {
                assert(tokens@.take(i + 1).drop_last() =~= tokens@.take(i as int));
            }
            match tokens[i] {
                Token::Number(x) => {
                    stack.push(x);
                },
                Token::Operator(op) => {
                    let len = stack.len();
                    if len < 2 {
                        proof {
                            Self::lemma_eval_failure_lasts(tokens@, i + 1);
                        }
                        return None;
                    }
                    let ghost before = stack@;
                    let right = stack.pop().unwrap();
                    let left = stack.pop().unwrap();
                    stack.push(op.apply(left, right));
                    proof {
                        assert(stack@ =~= before.take(before.len() - 2).push(
                            op.applied(before[before.len() - 2], before[before.len() - 1]),
                        ));
                    }
                },
                Token::Bracket(_) => {},
            }
            i += 1;
        }
        proof {
            assert(tokens@.take(n as int) =~= tokens@);
        }
        if stack.len() == 1 {
            Some(stack[0])
        } else {
            None
        }
    }

    /// Once an operator lacked an operand, the evaluation has no value.
    pub proof fn lemma_eval_failure_lasts(tokens: Seq<Token>, n: int)
        requires
            0 <= n <= tokens.len(),
            eval_stack(tokens.take(n)) is None,
        ensures
            eval_stack(tokens) is None,
        decreases tokens.len() - n,
    {
        if n == tokens.len() {
            assert(tokens.take(n) =~= tokens);
        } else {
            assert(tokens.take(n + 1).drop_last() =~= tokens.take(n));
            Self::lemma_eval_failure_lasts(tokens, n + 1);
        }
    }

    /// An error met within a prefix is the error of the whole text.
    pub proof fn lemma_scan_error_lasts(text: Seq<char>, n: int)
        requires
            0 <= n <= text.len(),
            scan(text.take(n)) is Err,
        ensures
            scan(text) == scan(text.take(n)),
        decreases text.len() - n,
    {
        if n == text.len() {
            assert(text.take(n) =~= text);
        } else {
            assert(text.take(n + 1).drop_last() =~= text.take(n));
            Self::lemma_scan_error_lasts(text, n + 1);
        }
    }
}

/// A prefix holds no more occurrences than the whole text.
pub proof fn lemma_occurrences_grow(text: Seq<char>, c: char, n: int)
    requires
        0 <= n <= text.len(),
    ensures
        occurrences(text.take(n), c) <= occurrences(text, c),
    decreases text.len() - n,
{
    if n == text.len() {
        assert(text.take(n) =~= text);
    } else {
        assert(text.take(n + 1).drop_last() =~= text.take(n));
        lemma_occurrences_grow(text, c, n + 1);
    }
}

} // verus!
