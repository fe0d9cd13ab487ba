//! Why the evaluator is right: expressions as trees.
//!
//! A well-formed expression is the writing of a tree. The shape of the tree
//! says how the expression is read: `*` and `/` before `+` and `-`, equal
//! operators from left to right, parentheses first. The value of the tree is
//! the value that ordinary arithmetic gives the expression. The laws of this
//! module say that the shunting yard puts the writing of every such tree in
//! the postfix order of the tree, and that the evaluator finds its value.

use crate::expr::{
    apply, close_paren, drain, eval_run, eval_step, give_way, infix_value, lex, postfix,
    postfix_value, precedence, value_of, yard_run, yard_step, Op, Token, Yard,
};
use vstd::prelude::*;

verus! {

/// An expression as a tree.
pub enum Tree {
    /// A number.
    Num(i64),
    /// An expression in parentheses.
    Paren(Box<Tree>),
    /// An operator between its left and its right operand.
    Bin(Op, Box<Tree>, Box<Tree>),
}

/// Whether `t` is a factor: a number, or a sum in parentheses.
pub open spec fn is_factor(t: Tree) -> bool
    decreases t, 0nat,
{
    match t {
        Tree::Num(_) => true,
        Tree::Paren(inner) => is_sum(*inner),
        Tree::Bin(_, _, _) => false,
    }
}

/// Whether `t` is a product: factors joined by `*` and `/`, read from left
/// to right.
pub open spec fn is_product(t: Tree) -> bool
    decreases t, 1nat,
{
    match t {
        Tree::Bin(op, left, right) => precedence(op) == 1 && is_product(*left) && is_factor(
            *right,
        ),
        _ => is_factor(t),
    }
}

/// Whether `t` is a sum: products joined by `+` and `-`, read from left to
/// right. Every well-formed expression is a sum.
pub open spec fn is_sum(t: Tree) -> bool
    decreases t, 2nat,
{
    match t {
        Tree::Bin(op, left, right) => if precedence(op) == 0 {
            is_sum(*left) && is_product(*right)
        } else {
            is_product(t)
        },
        _ => is_factor(t),
    }
}

/// The tokens that write a tree in infix order.
pub open spec fn written(t: Tree) -> Seq<Token>
    decreases t,
{
    match t {
        Tree::Num(n) => seq![Token::Number(n)],
        Tree::Paren(inner) => seq![Token::LParen] + written(*inner) + seq![Token::RParen],
        Tree::Bin(op, left, right) => written(*left) + seq![Token::Operator(op)] + written(*right),
    }
}

/// The tokens that write a tree in postfix order: each operator after its
/// operands.
pub open spec fn post(t: Tree) -> Seq<Token>
    decreases t,
{
    match t {
        Tree::Num(n) => seq![Token::Number(n)],
        Tree::Paren(inner) => post(*inner),
        Tree::Bin(op, left, right) => post(*left) + post(*right) + seq![Token::Operator(op)],
    }
}

/// The value of a tree: each operator applied to the values of its operands.
/// A tree has no value when an operand has none, when it divides by zero,
/// or when a result does not fit in an `i64`.
pub open spec fn value(t: Tree) -> Option<i64>
    decreases t,
{
    match t {
        Tree::Num(n) => Some(n),
        Tree::Paren(inner) => value(*inner),
        Tree::Bin(op, left, right) => match (value(*left), value(*right)) {
            (Some(x), Some(y)) => apply(op, x as int, y as int),
            _ => None,
        },
    }
}

/// The stack of values with one more value on it, when there is a stack and
/// a value.
pub open spec fn pushed(stack: Option<Seq<i64>>, v: Option<i64>) -> Option<Seq<i64>> {
    match (stack, v) {
        (Some(s), Some(x)) => Some(s.push(x)),
        _ => None,
    }
}

/// Running tokens one after another is running the first, then the rest.
pub proof fn lemma_eval_run_concat(stack: Seq<i64>, a: Seq<Token>, b: Seq<Token>)
    ensures
        eval_run(stack, a + b) == match eval_run(stack, a) {
            Some(mid) => eval_run(mid, b),
            None => None,
        },
    decreases a.len(),
{
    if a.len() == 0 {
        assert(a + b =~= b);
    } else {
        assert((a + b)[0] == a[0]);
        assert((a + b).drop_first() =~= a.drop_first() + b);
        match eval_step(stack, a[0]) {
            Some(next) => {
                lemma_eval_run_concat(next, a.drop_first(), b);
            },
            None => {},
        }
    }
}

/// Running a single token is one step.
pub proof fn lemma_eval_run_one(stack: Seq<i64>, t: Token)
    ensures
        eval_run(stack, seq![t]) == eval_step(stack, t),
{
    let s = seq![t];
    assert(s[0] == t);
    assert(s.drop_first() =~= Seq::<Token>::empty());
    match eval_step(stack, t) {
        Some(next) => {
            assert(eval_run(next, s.drop_first()) == Some(next));
        },
        None => {},
    }
}

/// Running the postfix writing of a tree puts the value of the tree on the
/// stack, and fails when the tree has no value.
pub proof fn lemma_eval_post(stack: Seq<i64>, t: Tree)
    ensures
        eval_run(stack, post(t)) == pushed(Some(stack), value(t)),
    decreases t,
{
    match t {
        Tree::Num(n) => {
            lemma_eval_run_one(stack, Token::Number(n));
        },
        Tree::Paren(inner) => {
            lemma_eval_post(stack, *inner);
        },
        Tree::Bin(op, left, right) => {
            let l = post(*left);
            let r = post(*right);
            let o = seq![Token::Operator(op)];
            lemma_eval_post(stack, *left);
            assert(post(t) =~= l + (r + o));
            lemma_eval_run_concat(stack, l, r + o);
            match value(*left) {
                Some(x) => {
                    let s1 = stack.push(x);
                    lemma_eval_post(s1, *right);
                    lemma_eval_run_concat(s1, r, o);
                    match value(*right) {
                        Some(y) => {
                            let s2 = s1.push(y);
                            lemma_eval_run_one(s2, Token::Operator(op));
                            assert(s2.drop_last().drop_last() =~= stack);
                        },
                        None => {},
                    }
                },
                None => {},
            }
        },
    }
}

/// The evaluator finds the value of a tree from its postfix writing.
pub proof fn lemma_postfix_value(t: Tree)
    ensures
        postfix_value(post(t)) == value(t),
{
    lemma_eval_post(Seq::empty(), t);
}

/// The operators that the yard still holds back, above what it held
/// before, when it has read the writing of a tree: those on the right spine.
pub open spec fn pending(t: Tree) -> Seq<Token>
    decreases t,
{
    match t {
        Tree::Bin(op, _, right) => seq![Token::Operator(op)] + pending(*right),
        _ => Seq::empty(),
    }
}

/// The tokens that the yard has put out when it has read the writing of a
/// tree: its postfix writing without the operators still held back.
pub open spec fn emitted(t: Tree) -> Seq<Token>
    decreases t,
{
    match t {
        Tree::Bin(_, left, right) => post(*left) + emitted(*right),
        _ => post(t),
    }
}

/// The output after the tokens `held` have followed it, the last one first.
pub open spec fn flush(held: Seq<Token>, output: Seq<Token>) -> Seq<Token>
    decreases held.len(),
{
    if held.len() == 0 {
        output
    } else {
        flush(held.drop_last(), output.push(held.last()))
    }
}

/// Whether every token of `held` is an operator that binds at least as
/// tightly as the precedence `p`.
pub open spec fn binds_at_least(held: Seq<Token>, p: nat) -> bool {
    forall|i: int|
        0 <= i < held.len() ==> (#[trigger] held[i] matches Token::Operator(o) && precedence(o)
            >= p)
}

/// Whether the top of the stack stays where it is when an operator of
/// precedence `p` arrives.
pub open spec fn floor_holds(stack: Seq<Token>, p: nat) -> bool {
    stack.len() == 0 || !(stack.last() matches Token::Operator(o) && precedence(o) >= p)
}

/// The yard run over tokens one after another is the run over the first,
/// then over the rest.
pub proof fn lemma_yard_run_concat(y: Yard, a: Seq<Token>, b: Seq<Token>)
    ensures
        yard_run(y, a + b) == match yard_run(y, a) {
            Some(mid) => yard_run(mid, b),
            None => None,
        },
    decreases a.len(),
{
    if a.len() == 0 {
        assert(a + b =~= b);
    } else {
        assert((a + b)[0] == a[0]);
        assert((a + b).drop_first() =~= a.drop_first() + b);
        match yard_step(y, a[0]) {
            Some(next) => {
                lemma_yard_run_concat(next, a.drop_first(), b);
            },
            None => {},
        }
    }
}

/// The yard run over a single token is one step.
pub proof fn lemma_yard_run_one(y: Yard, t: Token)
    ensures
        yard_run(y, seq![t]) == yard_step(y, t),
{
    let s = seq![t];
    assert(s[0] == t);
    assert(s.drop_first() =~= Seq::<Token>::empty());
    match yard_step(y, t) {
        Some(next) => {
            assert(yard_run(next, s.drop_first()) == Some(next));
        },
        None => {},
    }
}

/// Flushing two runs of tokens is flushing the upper one, then the lower.
pub proof fn lemma_flush_concat(a: Seq<Token>, b: Seq<Token>, output: Seq<Token>)
    ensures
        flush(a + b, output) == flush(a, flush(b, output)),
    decreases b.len(),
{
    if b.len() == 0 {
        assert(a + b =~= a);
    } else {
        assert((a + b).last() == b.last());
        assert((a + b).drop_last() =~= a + b.drop_last());
        lemma_flush_concat(a, b.drop_last(), output.push(b.last()));
    }
}

/// Once the operators held back have followed the output, the output ends
/// with the postfix writing of the tree.
pub proof fn lemma_flush_pending(t: Tree, output: Seq<Token>)
    ensures
        flush(pending(t), output + emitted(t)) == output + post(t),
    decreases t,
{
    match t {
        Tree::Bin(op, left, right) => {
            let o = seq![Token::Operator(op)];
            let mid = output + post(*left);
            lemma_flush_pending(*right, mid);
            assert(output + emitted(t) =~= mid + emitted(*right));
            lemma_flush_concat(o, pending(*right), output + emitted(t));
            let done = mid + post(*right);
            assert(o.drop_last() =~= Seq::<Token>::empty());
            assert(o.last() == Token::Operator(op));
            assert(flush(o.drop_last(), done.push(o.last())) == done.push(o.last()));
            assert(flush(o, done) == done.push(Token::Operator(op)));
            assert(done.push(Token::Operator(op)) =~= output + post(t));
        },
        _ => {
            assert(output + emitted(t) =~= output + post(t));
        },
    }
}

/// An arriving operator sends to the output every operator held back that
/// binds at least as tightly, down to a top that stays.
pub proof fn lemma_give_way_flush(
    stack: Seq<Token>,
    held: Seq<Token>,
    output: Seq<Token>,
    op: Op,
)
    requires
        binds_at_least(held, precedence(op)),
        floor_holds(stack, precedence(op)),
    ensures
        give_way(stack + held, output, op) == (stack, flush(held, output)),
    decreases held.len(),
{
    if held.len() == 0 {
        assert(stack + held =~= stack);
    } else {
        let all = stack + held;
        assert(all.last() == held.last());
        assert(held[held.len() - 1] == held.last());
        assert(all.drop_last() =~= stack + held.drop_last());
        assert forall|i: int| 0 <= i < held.drop_last().len() implies (
        #[trigger] held.drop_last()[i] matches Token::Operator(o) && precedence(o) >= precedence(
            op,
        )) by {
            assert(held.drop_last()[i] == held[i]);
        }
        lemma_give_way_flush(stack, held.drop_last(), output.push(held.last()), op);
    }
}

/// A closing parenthesis sends to the output the operators held back above
/// the opening one, and takes that one off.
pub proof fn lemma_close_flush(stack: Seq<Token>, held: Seq<Token>, output: Seq<Token>)
    requires
        binds_at_least(held, 0),
    ensures
        close_paren(stack.push(Token::LParen) + held, output) == Some(
            (stack, flush(held, output)),
        ),
    decreases held.len(),
{
    let base = stack.push(Token::LParen);
    if held.len() == 0 {
        assert(base + held =~= base);
        assert(base.drop_last() =~= stack);
    } else {
        let all = base + held;
        assert(all.last() == held.last());
        assert(held[held.len() - 1] == held.last());
        assert(all.drop_last() =~= base + held.drop_last());
        assert forall|i: int| 0 <= i < held.drop_last().len() implies (
        #[trigger] held.drop_last()[i] matches Token::Operator(o) && precedence(o) >= 0) by {
            assert(held.drop_last()[i] == held[i]);
        }
        lemma_close_flush(stack, held.drop_last(), output.push(held.last()));
    }
}

/// At the end the operators held back follow the output.
pub proof fn lemma_drain_flush(held: Seq<Token>, output: Seq<Token>)
    requires
        binds_at_least(held, 0),
    ensures
        drain(held, output) == flush(held, output),
    decreases held.len(),
{
    if held.len() > 0 {
        assert(held[held.len() - 1] == held.last());
        assert forall|i: int| 0 <= i < held.drop_last().len() implies (
        #[trigger] held.drop_last()[i] matches Token::Operator(o) && precedence(o) >= 0) by {
            assert(held.drop_last()[i] == held[i]);
        }
        lemma_drain_flush(held.drop_last(), output.push(held.last()));
    }
}

/// Every factor is a product, and every product is a sum.
pub proof fn lemma_levels(t: Tree)
    ensures
        is_factor(t) ==> is_product(t),
        is_product(t) ==> is_sum(t),
{
}

/// What a sum holds back are operators; what a product holds back binds
/// tightly; a factor holds nothing back.
pub proof fn lemma_pending_binds(t: Tree)
    requires
        is_sum(t),
    ensures
        binds_at_least(pending(t), 0),
        is_product(t) ==> binds_at_least(pending(t), 1),
        is_factor(t) ==> pending(t).len() == 0,
    decreases t,
{
    match t {
        Tree::Bin(op, left, right) => {
            if precedence(op) == 0 {
                assert(is_product(*right));
            } else {
                assert(is_product(t));
                assert(is_factor(*right));
            }
            lemma_levels(*right);
            lemma_pending_binds(*right);
            let held = pending(t);
            assert(held =~= seq![Token::Operator(op)] + pending(*right));
            assert forall|i: int| 0 <= i < held.len() implies (#[trigger] held[i] matches Token::Operator(
                o,
            ) && precedence(o) >= 0) by {
                if i > 0 {
                    assert(held[i] == pending(*right)[i - 1]);
                }
            }
            if is_product(t) {
                assert forall|i: int| 0 <= i < held.len() implies (
                #[trigger] held[i] matches Token::Operator(o) && precedence(o) >= 1) by {
                    if i > 0 {
                        assert(held[i] == pending(*right)[i - 1]);
                    }
                }
            }
        },
        _ => {},
    }
}

/// The yard reads the writing of a factor and puts out its postfix
/// writing; what it held back before is held back after.
pub proof fn lemma_yard_factor(t: Tree, stack: Seq<Token>, output: Seq<Token>)
    requires
        is_factor(t),
    ensures
        yard_run(Yard { stack, output, operand_seen: false }, written(t)) == Some(
            Yard { stack, output: output + post(t), operand_seen: true },
        ),
    decreases t, 0nat,
{
    let start = Yard { stack, output, operand_seen: false };
    match t {
        Tree::Num(n) => {
            lemma_yard_run_one(start, Token::Number(n));
            assert(output.push(Token::Number(n)) =~= output + post(t));
        },
        Tree::Paren(inner) => {
            let open = seq![Token::LParen];
            let close = seq![Token::RParen];
            let body = written(*inner);
            assert(written(t) =~= open + (body + close));
            let opened = Yard { stack: stack.push(Token::LParen), output, operand_seen: false };
            lemma_yard_run_one(start, Token::LParen);
            lemma_yard_run_concat(start, open, body + close);
            assert(floor_holds(opened.stack, 0)) by {
                assert(opened.stack.last() == Token::LParen);
            }
            lemma_yard_sum(*inner, opened.stack, output);
            let read = Yard {
                stack: opened.stack + pending(*inner),
                output: output + emitted(*inner),
                operand_seen: true,
            };
            lemma_yard_run_concat(opened, body, close);
            lemma_yard_run_one(read, Token::RParen);
            lemma_pending_binds(*inner);
            lemma_close_flush(stack, pending(*inner), read.output);
            lemma_flush_pending(*inner, output);
        },
        Tree::Bin(_, _, _) => {},
    }
}

/// The yard reads the writing of a product over a stack whose top does not
/// bind tightly: it holds back what the product leaves pending and puts out
/// the rest.
pub proof fn lemma_yard_product(t: Tree, stack: Seq<Token>, output: Seq<Token>)
    requires
        is_product(t),
        floor_holds(stack, 1),
    ensures
        yard_run(Yard { stack, output, operand_seen: false }, written(t)) == Some(
            Yard { stack: stack + pending(t), output: output + emitted(t), operand_seen: true },
        ),
    decreases t, 1nat,
{
    match t {
        Tree::Bin(op, left, right) => {
            lemma_yard_operator(t, stack, output);
        },
        _ => {
            lemma_yard_factor(t, stack, output);
            assert(stack + pending(t) =~= stack);
        },
    }
}

/// The yard reads the writing of a sum over a stack whose top is no
/// operator: it holds back what the sum leaves pending and puts out the
/// rest.
pub proof fn lemma_yard_sum(t: Tree, stack: Seq<Token>, output: Seq<Token>)
    requires
        is_sum(t),
        floor_holds(stack, 0),
    ensures
        yard_run(Yard { stack, output, operand_seen: false }, written(t)) == Some(
            Yard { stack: stack + pending(t), output: output + emitted(t), operand_seen: true },
        ),
    decreases t, 2nat,
{
    match t {
        Tree::Bin(op, left, right) => {
            if precedence(op) == 0 {
                lemma_yard_operator(t, stack, output);
            } else {
                lemma_yard_product(t, stack, output);
            }
        },
        _ => {
            lemma_yard_factor(t, stack, output);
            assert(stack + pending(t) =~= stack);
        },
    }
}

/// The yard reads an operator between its operands: the left operand, then
/// the operator, to which what the left operand left pending gives way,
/// then the right operand.
pub proof fn lemma_yard_operator(t: Tree, stack: Seq<Token>, output: Seq<Token>)
    requires
        t is Bin,
        is_sum(t),
        floor_holds(stack, precedence(t->Bin_0)),
    ensures
        yard_run(Yard { stack, output, operand_seen: false }, written(t)) == Some(
            Yard { stack: stack + pending(t), output: output + emitted(t), operand_seen: true },
        ),
    decreases t, 0nat,
{
    let start = Yard { stack, output, operand_seen: false };
    match t {
        Tree::Bin(op, left, right) => {
            let l = written(*left);
            let o = seq![Token::Operator(op)];
            let r = written(*right);
            assert(written(t) =~= l + (o + r));
            if precedence(op) == 0 {
                lemma_yard_sum(*left, stack, output);
            } else {
                assert(is_product(t));
                lemma_yard_product(*left, stack, output);
            }
            let after_left = Yard {
                stack: stack + pending(*left),
                output: output + emitted(*left),
                operand_seen: true,
            };
            lemma_yard_run_concat(start, l, o + r);
            lemma_levels(*left);
            lemma_pending_binds(*left);
            lemma_give_way_flush(stack, pending(*left), after_left.output, op);
            lemma_flush_pending(*left, output);
            let held = stack.push(Token::Operator(op));
            let after_op = Yard { stack: held, output: output + post(*left), operand_seen: false };
            assert(yard_step(after_left, Token::Operator(op)) == Some(after_op));
            lemma_yard_run_one(after_left, Token::Operator(op));
            lemma_yard_run_concat(after_left, o, r);
            if precedence(op) == 0 {
                assert(floor_holds(held, 1)) by {
                    assert(held.last() == Token::Operator(op));
                }
                lemma_yard_product(*right, held, after_op.output);
            } else {
                lemma_yard_factor(*right, held, after_op.output);
                lemma_levels(*right);
                lemma_pending_binds(*right);
                assert(held + pending(*right) =~= held);
            }
            assert(held + pending(*right) =~= stack + pending(t));
            assert(after_op.output + emitted(*right) =~= output + emitted(t));
        },
        _ => {},
    }
}

/// The shunting yard puts the writing of every well-formed expression in
/// the postfix order of its tree.
pub proof fn lemma_postfix_of_written(t: Tree)
    requires
        is_sum(t),
    ensures
        postfix(written(t)) == Some(post(t)),
{
    let none = Seq::<Token>::empty();
    lemma_yard_sum(t, none, none);
    lemma_pending_binds(t);
    assert(none + pending(t) =~= pending(t));
    lemma_drain_flush(pending(t), none + emitted(t));
    lemma_flush_pending(t, none);
    assert(none + post(t) =~= post(t));
}

/// The value that the evaluator finds for a well-formed expression is the
/// value of its tree: `*` and `/` before `+` and `-`, equal operators from
/// left to right, parentheses first, division rounded toward zero. Where the
/// tree has no value, because it divides by zero or leaves the range of
/// `i64`, the evaluator finds none.
pub proof fn lemma_infix_value(t: Tree)
    requires
        is_sum(t),
    ensures
        infix_value(written(t)) == value(t),
{
    lemma_postfix_of_written(t);
    lemma_postfix_value(t);
}

/// A text whose tokens write a well-formed expression has the value of the
/// tree of that expression.
pub proof fn lemma_value_of_text(text: Seq<char>, t: Tree)
    requires
        is_sum(t),
        lex(text) == Some(written(t)),
    ensures
        value_of(text) == value(t),
{
    lemma_infix_value(t);
}

} // verus!
