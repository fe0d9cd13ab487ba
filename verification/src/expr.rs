//! Arithmetic expressions: tokens, infix to postfix, and evaluation.
//!
//! An expression is text whose words are numbers, the operators `+ - * /`
//! and parentheses. It is split into tokens, the tokens are put in postfix
//! order by the shunting-yard method, and the postfix sequence is run on a
//! stack of integers.

use crate::text::{
    chars_of, digit, is_digit, numeral_within, parse_numeral, split_words, views, words,
};
use std::collections::HashMap;
use vstd::prelude::*;

verus! {

/// One of the four arithmetic operators.
#[derive(Clone, Copy, Debug, PartialEq, Eq, PartialOrd, Ord, Hash, Structural)]
pub enum Op {
    Add,
    Sub,
    Mul,
    Div,
}

/// A word of an expression.
#[derive(Clone, Copy, Debug, PartialEq, Eq, PartialOrd, Ord, Hash, Structural)]
pub enum Token {
    Number(i64),
    Operator(Op),
    LParen,
    RParen,
    Unknown,
}

/// How tightly an operator binds: `*` and `/` bind tighter than `+` and `-`.
pub open spec fn precedence(op: Op) -> nat {
    match op {
        Op::Add | Op::Sub => 0,
        Op::Mul | Op::Div => 1,
    }
}

/// Whether the word `w` is the single character `c`.
pub open spec fn is_symbol(w: Seq<char>, c: char) -> bool {
    w.len() == 1 && w[0] == c
}

/// The token that a word stands for. A word that starts with a digit must
/// be a numeral that fits in an `i64`; such a word that is not has no token.
pub open spec fn classify(w: Seq<char>) -> Option<Token> {
    if is_symbol(w, '+') {
        Some(Token::Operator(Op::Add))
    } else if is_symbol(w, '-') {
        Some(Token::Operator(Op::Sub))
    } else if is_symbol(w, '*') {
        Some(Token::Operator(Op::Mul))
    } else if is_symbol(w, '/') {
        Some(Token::Operator(Op::Div))
    } else if is_symbol(w, '(') {
        Some(Token::LParen)
    } else if is_symbol(w, ')') {
        Some(Token::RParen)
    } else if w.len() > 0 && is_digit(w[0]) {
        match numeral_within(w, i64::MAX as nat) {
            Some(n) => Some(Token::Number(n as i64)),
            None => None,
        }
    } else {
        Some(Token::Unknown)
    }
}

/// The tokens of the first `n` words, when each of them has a token.
pub open spec fn classify_all(ws: Seq<Seq<char>>, n: int) -> Option<Seq<Token>>
    decreases n,
{
    if n <= 0 {
        Some(Seq::empty())
    } else {
        match (classify_all(ws, n - 1), classify(ws[n - 1])) {
            (Some(ts), Some(t)) => Some(ts.push(t)),
            _ => None,
        }
    }
}

/// The tokens of a text, one for each of its words in order; nothing when
/// one of the words has no token.
pub open spec fn lex(text: Seq<char>) -> Option<Seq<Token>> {
    classify_all(words(text), words(text).len() as int)
}

/// The state of the shunting yard: the operators and parentheses held back,
/// the tokens put out so far, and whether the last thing seen was an operand.
pub struct Yard {
    pub stack: Seq<Token>,
    pub output: Seq<Token>,
    pub operand_seen: bool,
}

/// The yard before the first token: nothing held back, nothing put out, an
/// operand expected.
pub open spec fn yard_start() -> Yard {
    Yard { stack: Seq::empty(), output: Seq::empty(), operand_seen: false }
}

/// What a closing parenthesis does: the tokens held back above the nearest
/// opening parenthesis go to the output, and that parenthesis is dropped.
/// Nothing when no opening parenthesis is held back.
pub open spec fn close_paren(stack: Seq<Token>, output: Seq<Token>) -> Option<
    (Seq<Token>, Seq<Token>),
>
    decreases stack.len(),
{
    if stack.len() == 0 {
        None
    } else if stack.last() == Token::LParen {
        Some((stack.drop_last(), output))
    } else {
        close_paren(stack.drop_last(), output.push(stack.last()))
    }
}

/// What an arriving operator does to the yard before it is held back itself:
/// the operators on top that do not bind less tightly go to the output.
pub open spec fn give_way(stack: Seq<Token>, output: Seq<Token>, op: Op) -> (
    Seq<Token>,
    Seq<Token>,
)
    decreases stack.len(),
{
    if stack.len() > 0 && (stack.last() matches Token::Operator(top) && precedence(top)
        >= precedence(op)) {
        give_way(stack.drop_last(), output.push(stack.last()), op)
    } else {
        (stack, output)
    }
}

/// The output once the tokens still held back have followed it, topmost
/// first. An opening parenthesis that was never closed is dropped.
pub open spec fn drain(stack: Seq<Token>, output: Seq<Token>) -> Seq<Token>
    decreases stack.len(),
{
    if stack.len() == 0 {
        output
    } else if stack.last() == Token::LParen {
        drain(stack.drop_last(), output)
    } else {
        drain(stack.drop_last(), output.push(stack.last()))
    }
}

/// The yard after one more token, or nothing when the token cannot stand
/// there: an operator with no operand before it, an operand right after an
/// operand, a closing parenthesis that nothing opened, an unknown word.
pub open spec fn yard_step(y: Yard, t: Token) -> Option<Yard> {
    match t {
        Token::LParen => Some(
            Yard { stack: y.stack.push(t), output: y.output, operand_seen: y.operand_seen },
        ),
        Token::RParen => match close_paren(y.stack, y.output) {
            Some((stack, output)) => Some(Yard { stack, output, operand_seen: y.operand_seen }),
            None => None,
        },
        Token::Operator(op) => if y.operand_seen {
            let (stack, output) = give_way(y.stack, y.output, op);
            Some(Yard { stack: stack.push(t), output, operand_seen: false })
        } else {
            None
        },
        Token::Number(_) => if !y.operand_seen {
            Some(Yard { stack: y.stack, output: y.output.push(t), operand_seen: true })
        } else {
            None
        },
        Token::Unknown => None,
    }
}

/// The yard after all of `tokens`, taken in order, or nothing when one of
/// them cannot stand where it does.
pub open spec fn yard_run(y: Yard, tokens: Seq<Token>) -> Option<Yard>
    decreases tokens.len(),
{
    if tokens.len() == 0 {
        Some(y)
    } else {
        match yard_step(y, tokens[0]) {
            Some(next) => yard_run(next, tokens.drop_first()),
            None => None,
        }
    }
}

/// The postfix order of an infix token sequence, or nothing when the
/// sequence is malformed.
pub open spec fn postfix(tokens: Seq<Token>) -> Option<Seq<Token>> {
    match yard_run(yard_start(), tokens) {
        Some(y) => Some(drain(y.stack, y.output)),
        None => None,
    }
}

/// The size of an integer.
pub open spec fn magnitude(x: int) -> int {
    if x < 0 {
        -x
    } else {
        x
    }
}

/// The quotient of `x` by `y` rounded toward zero.
pub open spec fn truncated_quotient(x: int, y: int) -> int
    recommends
        y != 0,
{
    if (x >= 0) == (y > 0) {
        magnitude(x) / magnitude(y)
    } else {
        -(magnitude(x) / magnitude(y))
    }
}

/// The result of an operator on `x` and `y`. There is none when the divisor
/// is zero, and none when the result does not fit in an `i64`.
pub open spec fn apply(op: Op, x: int, y: int) -> Option<i64> {
    if op == Op::Div && y == 0 {
        None
    } else {
        let r = match op {
            Op::Add => x + y,
            Op::Sub => x - y,
            Op::Mul => x * y,
            Op::Div => truncated_quotient(x, y),
        };
        if i64::MIN <= r <= i64::MAX {
            Some(r as i64)
        } else {
            None
        }
    }
}

/// The stack of values after one postfix token. A number is pushed. An
/// operator takes the two topmost values, the upper one as its right
/// operand, and leaves its result; with fewer than two values, or with no
/// result, there is no next stack. Any other token changes nothing.
pub open spec fn eval_step(stack: Seq<i64>, t: Token) -> Option<Seq<i64>> {
    match t {
        Token::Number(n) => Some(stack.push(n)),
        Token::Operator(op) => if stack.len() < 2 {
            None
        } else {
            match apply(op, stack[stack.len() - 2] as int, stack[stack.len() - 1] as int) {
                Some(r) => Some(stack.drop_last().drop_last().push(r)),
                None => None,
            }
        },
        _ => Some(stack),
    }
}

/// The stack of values after all of `tokens`, taken in order.
pub open spec fn eval_run(stack: Seq<i64>, tokens: Seq<Token>) -> Option<Seq<i64>>
    decreases tokens.len(),
{
    if tokens.len() == 0 {
        Some(stack)
    } else {
        match eval_step(stack, tokens[0]) {
            Some(next) => eval_run(next, tokens.drop_first()),
            None => None,
        }
    }
}

/// The value of a postfix sequence: the one value left on the stack at the
/// end. There is none when a step fails or when the stack does not end with
/// exactly one value.
pub open spec fn postfix_value(tokens: Seq<Token>) -> Option<i64> {
    match eval_run(Seq::empty(), tokens) {
        Some(stack) => if stack.len() == 1 {
            Some(stack[0])
        } else {
            None
        },
        None => None,
    }
}

/// The value of an infix token sequence.
pub open spec fn infix_value(tokens: Seq<Token>) -> Option<i64> {
    match postfix(tokens) {
        Some(p) => postfix_value(p),
        None => None,
    }
}

/// The value of an expression given as text: its tokens put in postfix
/// order and evaluated. There is none when any stage fails.
pub open spec fn value_of(text: Seq<char>) -> Option<i64> {
    match lex(text) {
        Some(tokens) => infix_value(tokens),
        None => None,
    }
}

/// The key under which the table of precedences holds an operator.
pub open spec fn op_key(op: Op) -> u8 {
    match op {
        Op::Add => 0,
        Op::Sub => 1,
        Op::Mul => 2,
        Op::Div => 3,
    }
}

/// Gives the token of one word.
pub fn classify_word(word: &Vec<char>) -> (token: Option<Token>)
    ensures
        token == classify(word@),
{
    if word.len() == 1 && word[0] == '+' {
        Some(Token::Operator(Op::Add))
    } else if word.len() == 1 && word[0] == '-' {
        Some(Token::Operator(Op::Sub))
    } else if word.len() == 1 && word[0] == '*' {
        Some(Token::Operator(Op::Mul))
    } else if word.len() == 1 && word[0] == '/' {
        Some(Token::Operator(Op::Div))
    } else if word.len() == 1 && word[0] == '(' {
        Some(Token::LParen)
    } else if word.len() == 1 && word[0] == ')' {
        Some(Token::RParen)
    } else if word.len() > 0 && digit(word[0]) {
        match parse_numeral(word.as_slice(), 0x7fff_ffff_ffff_ffff) {
            Some(n) => Some(Token::Number(n as i64)),
            None => None,
        }
    } else {
        Some(Token::Unknown)
    }
}

/// Splits an expression into tokens: one for each word. Fails when a word
/// that starts with a digit is not a numeral that fits in an `i64`.
pub fn tokenize(expr: &str) -> (tokens: Option<Vec<Token>>)
    ensures
        match tokens {
            Some(ts) => lex(expr@) == Some(ts@),
            None => lex(expr@) is None,
        },
{
    let chars = chars_of(expr);
    let ws = split_words(&chars);
    let mut tokens: Vec<Token> = Vec::new();
    let mut i: usize = 0;
    while i < ws.len()
        invariant
            i <= ws.len(),
            views(ws@) == words(expr@),
            classify_all(words(expr@), i as int) == Some(tokens@),
        decreases ws.len() - i,
    {
        proof {
            assert(views(ws@)[i as int] == ws@[i as int]@);
        }
        match classify_word(&ws[i]) {
            Some(t) => {
                tokens.push(t);
            },
            None => {
                proof {
                    lemma_classify_all_fails(words(expr@), i + 1, ws.len() as int);
                }
                return None;
            },
        }
        i += 1;
    }
    Some(tokens)
}

/// Once a word has no token, no longer run of the words has tokens.
pub proof fn lemma_classify_all_fails(ws: Seq<Seq<char>>, k: int, n: int)
    requires
        0 <= k <= n,
        classify_all(ws, k) is None,
    ensures
        classify_all(ws, n) is None,
    decreases n - k,
{
    if k < n {
        lemma_classify_all_fails(ws, k + 1, n);
    }
}

/// An evaluator of expressions. It owns the table of operator precedences,
/// a map from the key of each operator to its precedence.
pub struct Eval {
    precmap: HashMap<u8, u8>,
}

impl Eval {
    #[verifier::type_invariant]
    spec fn table_is_fixed(&self) -> bool {
        forall|op: Op|
            self.precmap@.contains_key(#[trigger] op_key(op)) && self.precmap@[op_key(op)] as nat
                == precedence(op)
    }

    /// The precedence that the table gives to `op`.
    pub closed spec fn rank(&self, op: Op) -> nat {
        self.precmap@[op_key(op)] as nat
    }

    /// An evaluator with the usual precedences.
    pub fn new() -> (eval: Eval)
        ensures
            forall|op: Op| eval.rank(op) == precedence(op),
    {
        let mut precmap: HashMap<u8, u8> = HashMap::new();
        precmap.insert(0, 0);
        precmap.insert(1, 0);
        precmap.insert(2, 1);
        precmap.insert(3, 1);
        proof {
            assert forall|op: Op|
                precmap@.contains_key(#[trigger] op_key(op)) && precmap@[op_key(op)] as nat
                    == precedence(op) by {
                match op {
                    Op::Add => {},
                    Op::Sub => {},
                    Op::Mul => {},
                    Op::Div => {},
                }
            }
        }
        Eval { precmap }
    }

    /// Looks up the precedence of `op` in the table.
    pub fn precedence_of(&self, op: Op) -> (p: u8)
        ensures
            p as nat == precedence(op),
            p as nat == self.rank(op),
    {
        proof {
            use_type_invariant(self);
        }
        let key: u8 = match op {
            Op::Add => 0,
            Op::Sub => 1,
            Op::Mul => 2,
            Op::Div => 3,
        };
        assert(key == op_key(op));
        match self.precmap.get(&key) {
            Some(p) => *p,
            None => 0,
        }
    }

    /// Puts an infix token sequence in postfix order by the shunting-yard
    /// method. Fails when the sequence is malformed.
    pub fn arrange(&self, tokens: &Vec<Token>) -> (out: Option<Vec<Token>>)
        ensures
            match out {
                Some(p) => postfix(tokens@) == Some(p@),
                None => postfix(tokens@) is None,
            },
    {
        let mut stack: Vec<Token> = Vec::new();
        let mut ret: Vec<Token> = Vec::new();
        let mut operand_seen = false;
        let mut i: usize = 0;
        proof {
            assert(tokens@.skip(0) =~= tokens@);
        }
        while i < tokens.len()
            invariant
                i <= tokens.len(),
                yard_run(yard_start(), tokens@) == yard_run(
                    Yard { stack: stack@, output: ret@, operand_seen },
                    tokens@.skip(i as int),
                ),
            decreases tokens.len() - i,
        {
            let token = tokens[i];
            proof {
                assert(tokens@.skip(i as int)[0] == token);
                assert(tokens@.skip(i as int).drop_first() =~= tokens@.skip(i + 1));
            }
            match token {
                Token::LParen => {
                    stack.push(token);
                },
                Token::RParen => {
                    if !pop_to_paren(&mut stack, &mut ret) {
                        return None;
                    }
                },
                Token::Operator(op) => {
                    if !operand_seen {
                        return None;
                    }
                    operand_seen = false;
                    self.pop_not_lower(&mut stack, &mut ret, op);
                    stack.push(token);
                },
                Token::Number(_) => {
                    if operand_seen {
                        return None;
                    }
                    operand_seen = true;
                    ret.push(token);
                },
                Token::Unknown => {
                    return None;
                },
            }
            i += 1;
        }
        pop_all(&mut stack, &mut ret);
        Some(ret)
    }

    /// Moves to the output the operators on top of the stack that do not bind
    /// less tightly than `op`.
    fn pop_not_lower(&self, stack: &mut Vec<Token>, out: &mut Vec<Token>, op: Op)
        ensures
            (final(stack)@, final(out)@) == give_way(old(stack)@, old(out)@, op),
    {
        let prec = self.precedence_of(op);
        loop
            invariant_except_break
                give_way(old(stack)@, old(out)@, op) == give_way(stack@, out@, op),
                prec as nat == precedence(op),
            ensures
                give_way(old(stack)@, old(out)@, op) == (stack@, out@),
            decreases stack.len(),
        {
            if stack.len() == 0 {
                break ;
            }
            let top = stack[stack.len() - 1];
            match top {
                Token::Operator(held) => {
                    if self.precedence_of(held) < prec {
                        break ;
                    }
                },
                _ => {
                    break ;
                },
            }
            stack.pop();
            out.push(top);
        }
    }

    /// The postfix order of the expression `expr`, or nothing when it is
    /// malformed.
    pub fn to_postfix(&self, expr: &str) -> (out: Option<Vec<Token>>)
        requires
            lex(expr@) is Some,
        ensures
            match out {
                Some(p) => postfix(lex(expr@)->0) == Some(p@),
                None => postfix(lex(expr@)->0) is None,
            },
    {
        match tokenize(expr) {
            Some(tokens) => self.arrange(&tokens),
            None => None,
        }
    }

    /// The value of the expression `expr`, or nothing when the expression is
    /// malformed, divides by zero, or leaves the range of `i64` on the way.
    pub fn eval(&self, expr: &str) -> (value: Option<i64>)
        requires
            lex(expr@) is Some,
        ensures
            value == value_of(expr@),
    {
        match self.to_postfix(expr) {
            Some(p) => evaluate_postfix(&p),
            None => None,
        }
    }
}

/// Moves tokens from the stack to the output until an opening parenthesis
/// comes off, which is dropped. Tells whether one was found.
fn pop_to_paren(stack: &mut Vec<Token>, out: &mut Vec<Token>) -> (found: bool)
    ensures
        match close_paren(old(stack)@, old(out)@) {
            Some((s, o)) => found && final(stack)@ == s && final(out)@ == o,
            None => !found,
        },
{
    loop
        invariant
            close_paren(old(stack)@, old(out)@) == close_paren(stack@, out@),
        decreases stack.len(),
    {
        match stack.pop() {
            None => {
                return false;
            },
            Some(top) => {
                if top == Token::LParen {
                    return true;
                }
                out.push(top);
            },
        }
    }
}

/// Moves every token left on the stack to the output, topmost first, but
/// for opening parentheses, which are dropped.
fn pop_all(stack: &mut Vec<Token>, out: &mut Vec<Token>)
    ensures
        final(out)@ == drain(old(stack)@, old(out)@),
{
    loop
        invariant
            drain(old(stack)@, old(out)@) == drain(stack@, out@),
        decreases stack.len(),
    {
        match stack.pop() {
            None => {
                return ;
            },
            Some(top) => {
                if top != Token::LParen {
                    out.push(top);
                }
            },
        }
    }
}

/// Applies an operator to two values.
pub fn compute(op: Op, x: i64, y: i64) -> (r: Option<i64>)
    ensures
        r == apply(op, x as int, y as int),
{
    match op {
        Op::Add => x.checked_add(y),
        Op::Sub => x.checked_sub(y),
        Op::Mul => x.checked_mul(y),
        Op::Div => {
            if y == 0 {
                None
            } else {
                x.checked_div(y)
            }
        },
    }
}

/// Runs a postfix token sequence on a stack of integers.
pub fn evaluate_postfix(tokens: &Vec<Token>) -> (value: Option<i64>)
    ensures
        value == postfix_value(tokens@),
{
    let mut stack: Vec<i64> = Vec::new();
    let mut i: usize = 0;
    proof {
        assert(tokens@.skip(0) =~= tokens@);
    }
    while i < tokens.len()
        invariant
            i <= tokens.len(),
            eval_run(Seq::empty(), tokens@) == eval_run(stack@, tokens@.skip(i as int)),
        decreases tokens.len() - i,
    {
        let token = tokens[i];
        proof {
            assert(tokens@.skip(i as int)[0] == token);
            assert(tokens@.skip(i as int).drop_first() =~= tokens@.skip(i + 1));
        }
        match token {
            Token::Operator(op) => {
                let ghost before = stack@;
                let y = match stack.pop() {
                    Some(y) => y,
                    None => {
                        return None;
                    },
                };
                let x = match stack.pop() {
                    Some(x) => x,
                    None => {
                        return None;
                    },
                };
                match compute(op, x, y) {
                    Some(r) => {
                        stack.push(r);
                        proof {
                            assert(stack@ =~= before.drop_last().drop_last().push(r));
                        }
                    },
                    None => {
                        return None;
                    },
                }
            },
            Token::Number(n) => {
                stack.push(n);
            },
            _ => {},
        }
        i += 1;
    }
    if stack.len() == 1 {
        Some(stack[0])
    } else {
        None
    }
}

} // verus!
