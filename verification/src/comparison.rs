//! `>` and `>=` have no trees and no instructions of their own: `a > b` is
//! read and lowered as `b < a`, and `a >= b` as `b <= a`.

use vstd::prelude::*;
use crate::gen_ir::{IROp, lemma_lower_expr, lower_binop, lower_expr, regs_after};
use crate::parse::{
    Node, Parsed, lemma_parse_relational_rest, parse_add, parse_relational_rest, relation,
    token_at,
};
use crate::Token;

verus! {

/// Where the parser stands before `>` or `>=` behind an operand `acc`, and
/// the operand behind the operator is `rhs`, it goes on with the tree of
/// `rhs < acc` or `rhs <= acc`: the tree that it makes of the same operands
/// the other way round with `<` or `<=` between them.
pub proof fn lemma_greater_is_swapped_less(ts: Seq<Token>, pos: int, acc: Parsed, rhs: Parsed)
    requires
        token_at(ts, pos + acc.used) == Some(Token::Gt) || token_at(ts, pos + acc.used) == Some(
            Token::Ge,
        ),
        parse_add(ts, pos + acc.used + 1, acc.vars) == Ok::<Parsed, crate::parse::ParseError>(rhs),
    ensures
        parse_relational_rest(ts, pos, acc) == parse_relational_rest(
            ts,
            pos,
            Parsed {
                node: if token_at(ts, pos + acc.used) == Some(Token::Gt) {
                    Node::Lt(Box::new(rhs.node), Box::new(acc.node))
                } else {
                    Node::Le(Box::new(rhs.node), Box::new(acc.node))
                },
                used: acc.used + 1 + rhs.used,
                vars: rhs.vars,
            },
        ),
        relation(Token::Gt, acc.node, rhs.node) == relation(Token::Lt, rhs.node, acc.node),
        relation(Token::Ge, acc.node, rhs.node) == relation(Token::Le, rhs.node, acc.node),
{
    lemma_parse_relational_rest(ts, pos, acc);
}

/// The instructions of `a > b` are those of `b < a`, and the instructions
/// of `a >= b` those of `b <= a`: first those of `b`, then those of `a`,
/// then the one comparison.
pub proof fn lemma_greater_lowers_as_swapped_less(a: Node, b: Node, regs: nat)
    ensures
        lower_expr(relation(Token::Gt, a, b)->Some_0, regs) == lower_expr(
            relation(Token::Lt, b, a)->Some_0,
            regs,
        ),
        lower_expr(relation(Token::Ge, a, b)->Some_0, regs) == lower_expr(
            relation(Token::Le, b, a)->Some_0,
            regs,
        ),
        lower_expr(relation(Token::Gt, a, b)->Some_0, regs) == lower_binop(
            IROp::Lt,
            lower_expr(b, regs),
            lower_expr(a, regs_after(lower_expr(b, regs))),
        ),
        lower_expr(relation(Token::Ge, a, b)->Some_0, regs) == lower_binop(
            IROp::Le,
            lower_expr(b, regs),
            lower_expr(a, regs_after(lower_expr(b, regs))),
        ),
{
    lemma_lower_expr(Node::Lt(Box::new(b), Box::new(a)), regs);
    lemma_lower_expr(Node::Le(Box::new(b), Box::new(a)), regs);
}

} // verus!
