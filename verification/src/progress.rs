//! What every production of the grammar keeps: it takes at least one token
//! and none beyond the end of the input, and it only adds to the table of
//! local variables, behind the variables that are there.

use vstd::prelude::*;
use crate::parse::{
    Local, MAX_LOCALS, Node, Parsed, ParsedClause, ParsedList, ParseError, all_in_range, find,
    find_from, in_range, option_in_range,
    lemma_parse_add, lemma_parse_add_rest, lemma_parse_args_rest, lemma_parse_assign,
    lemma_parse_clause, lemma_parse_equality, lemma_parse_equality_rest, lemma_parse_expr,
    lemma_parse_expr_stmt, lemma_parse_for, lemma_parse_if, lemma_parse_mul, lemma_parse_mul_rest,
    lemma_parse_params, lemma_parse_params_rest, lemma_parse_primary, lemma_parse_program_rest,
    lemma_parse_relational, lemma_parse_relational_rest, lemma_parse_return, lemma_parse_stmt,
    lemma_parse_stmts_rest, lemma_parse_toplevel, lemma_parse_unary, lemma_parse_while, new_local,
    parse_add, parse_add_rest, parse_args_rest, parse_assign, parse_clause, parse_equality,
    parse_equality_rest, parse_expr, parse_expr_stmt, parse_for, parse_if, parse_mul,
    parse_mul_rest, parse_params, parse_params_rest, parse_primary, parse_program_rest,
    parse_relational, parse_relational_rest, parse_return, parse_stmt, parse_stmts_rest,
    parse_toplevel, parse_unary, parse_while, relation, token_at, variable,
};
use crate::token::left;
use crate::{Token, tokens_in_range};

verus! {

/// Whether the table `after` is the table `before` with variables added
/// behind it.
pub open spec fn extends(before: Seq<Local>, after: Seq<Local>) -> bool {
    &&& before.len() <= after.len()
    &&& forall|i: int| 0 <= i < before.len() ==> #[trigger] after[i] == before[i]
}

/// Whether the table `vars` is one that a function's own references make:
/// it has room in the frame, its variables take the slots of eight bytes in
/// order, and no two of them have the same name.
pub open spec fn canonical(vars: Seq<Local>) -> bool {
    &&& vars.len() <= MAX_LOCALS
    &&& forall|i: int| 0 <= i < vars.len() ==> (#[trigger] vars[i]).offset == 8 * (i + 1)
    &&& forall|i: int, j: int|
        0 <= i < j < vars.len() ==> (#[trigger] vars[i]).name != (#[trigger] vars[j]).name
}

/// Whether a production that starts at `pos` with the table `vars` may take
/// `used` tokens and leave the table `after`.
pub open spec fn sound(ts: Seq<Token>, pos: int, vars: Seq<Local>, used: nat, after: Seq<Local>) -> bool {
    &&& used >= 1
    &&& pos + used <= ts.len()
    &&& extends(vars, after)
    &&& canonical(vars) ==> canonical(after)
}

/// Whether the outcome `r` of a production is an error, or sound with a tree
/// whose literals are in range if the numbers among the tokens are.
pub open spec fn ok(ts: Seq<Token>, pos: int, vars: Seq<Local>, r: Result<Parsed, ParseError>) -> bool {
    r matches Ok(p) ==> sound(ts, pos, vars, p.used, p.vars) && (tokens_in_range(ts) ==> in_range(
        p.node,
    ))
}

/// As [`ok`], for a production that makes a list.
pub open spec fn ok_list(
    ts: Seq<Token>,
    pos: int,
    vars: Seq<Local>,
    r: Result<ParsedList, ParseError>,
) -> bool {
    r matches Ok(p) ==> sound(ts, pos, vars, p.used, p.vars) && (tokens_in_range(ts)
        ==> all_in_range(p.nodes))
}

/// As [`ok`], for a clause.
pub open spec fn ok_clause(
    ts: Seq<Token>,
    pos: int,
    vars: Seq<Local>,
    r: Result<ParsedClause, ParseError>,
) -> bool {
    r matches Ok(p) ==> sound(ts, pos, vars, p.used, p.vars) && (tokens_in_range(ts)
        ==> option_in_range(p.node))
}

/// What `find_from` finds is the first variable with the name at or behind
/// `from`.
pub proof fn lemma_find_from(vars: Seq<Local>, name: Seq<char>, from: int)
    requires
        0 <= from,
    ensures
        match find_from(vars, name, from) {
            Some(i) => from <= i < vars.len() && vars[i].name == name && forall|j: int|
                from <= j < i ==> (#[trigger] vars[j]).name != name,
            None => forall|j: int| from <= j < vars.len() ==> (#[trigger] vars[j]).name != name,
        },
    decreases left(vars.len(), from),
{
    if from < vars.len() && vars[from].name != name {
        lemma_find_from(vars, name, from + 1);
    }
}

/// A reference to a variable only adds to the table, and keeps a canonical
/// table canonical. In a canonical table the name has one variable
/// afterwards, and the reference has its offset. A name that the table
/// holds leaves the table as it is.
pub proof fn lemma_variable(vars: Seq<Local>, name: Seq<char>, pos: int)
    ensures
        variable(vars, name, pos) matches Ok((offset, after)) ==> {
            &&& extends(vars, after)
            &&& canonical(vars) ==> canonical(after)
            &&& find(vars, name) is Some ==> after == vars
            &&& find(after, name) matches Some(i) && after[i].offset == offset
            &&& find(vars, name) is None ==> after == vars.push(new_local(vars, name))
        },
{
    lemma_find_from(vars, name, 0);
    match variable(vars, name, pos) {
        Ok((offset, after)) => {
            lemma_find_from(after, name, 0);
            if find(vars, name) is None {
                let added = new_local(vars, name);
                assert(after == vars.push(added));
                assert(after[vars.len() as int].name == name);
                assert forall|i: int| 0 <= i < after.len() implies (#[trigger] after[i]).offset == 8
                    * (i + 1) || !canonical(vars) by {
                    if i < vars.len() {
                        assert(after[i] == vars[i]);
                    }
                }
                assert forall|i: int, j: int| 0 <= i < j < after.len() implies (#[trigger] after[i]).name
                    != (#[trigger] after[j]).name || !canonical(vars) by {
                    assert(after[i] == vars[i]);
                    if j < vars.len() {
                        assert(after[j] == vars[j]);
                    }
                }
                assert forall|j: int| 0 <= j < vars.len() implies (#[trigger] after[j]).name
                    != name by {
                    assert(after[j] == vars[j]);
                }
            }
        },
        Err(_) => {},
    }
}

/// A table that extends a table that extends a third extends the third.
pub proof fn lemma_extends_transitive(a: Seq<Local>, b: Seq<Local>, c: Seq<Local>)
    requires
        extends(a, b),
        extends(b, c),
    ensures
        extends(a, c),
{
    assert forall|i: int| 0 <= i < a.len() implies #[trigger] c[i] == a[i] by {
        assert(b[i] == a[i]);
        assert(c[i] == b[i]);
    }
}

/// A production behind a sound production, with `gap` tokens between them,
/// makes a sound production of both.
pub proof fn lemma_sound_then(
    ts: Seq<Token>,
    pos: int,
    vars: Seq<Local>,
    used: nat,
    middle: Seq<Local>,
    gap: nat,
    more: nat,
    after: Seq<Local>,
)
    requires
        extends(vars, middle),
        canonical(vars) ==> canonical(middle),
        sound(ts, pos + used + gap, middle, more, after),
        pos >= 0,
    ensures
        sound(ts, pos, vars, used + gap + more, after),
{
    lemma_extends_transitive(vars, middle, after);
}

/// [`parse_primary`] is sound.
pub proof fn lemma_primary(ts: Seq<Token>, pos: int, vars: Seq<Local>)
    requires
        pos >= 0,
    ensures
        ok(ts, pos, vars, parse_primary(ts, pos, vars)),
    decreases left(ts.len(), pos), 0nat,
{
    lemma_parse_primary(ts, pos, vars);
    match token_at(ts, pos) {
        Some(Token::Ident(name)) => {
            if token_at(ts, pos + 1) != Some(Token::LeftParen) {
                lemma_variable(vars, name, pos);
            } else if token_at(ts, pos + 2) == Some(Token::RightParen) {
            } else {
                lemma_primary(ts, pos + 2, vars);
                match parse_primary(ts, pos + 2, vars) {
                    Ok(first) => {
                        let acc = ParsedList {
                            nodes: seq![first.node],
                            used: 2 + first.used,
                            vars: first.vars,
                        };
                        lemma_args_rest(ts, pos, acc, vars);
                    },
                    Err(_) => {},
                }
            }
        },
        Some(Token::LeftParen) => {
            lemma_expr(ts, pos + 1, vars);
        },
        _ => {},
    }
}

/// [`parse_args_rest`] is sound behind sound arguments.
pub proof fn lemma_args_rest(ts: Seq<Token>, pos: int, acc: ParsedList, vars: Seq<Local>)
    requires
        pos >= 0,
        sound(ts, pos, vars, acc.used, acc.vars),
        tokens_in_range(ts) ==> all_in_range(acc.nodes),
    ensures
        ok_list(ts, pos, vars, parse_args_rest(ts, pos, acc)),
    decreases left(ts.len(), pos + acc.used), 0nat,
{
    lemma_parse_args_rest(ts, pos, acc);
    if token_at(ts, pos + acc.used) == Some(Token::Comma) {
        lemma_primary(ts, pos + acc.used + 1, acc.vars);
        match parse_primary(ts, pos + acc.used + 1, acc.vars) {
            Ok(next) => {
                lemma_sound_then(ts, pos, vars, acc.used, acc.vars, 1, next.used, next.vars);
                lemma_args_rest(
                    ts,
                    pos,
                    ParsedList {
                        nodes: acc.nodes.push(next.node),
                        used: acc.used + 1 + next.used,
                        vars: next.vars,
                    },
                    vars,
                );
            },
            Err(_) => {},
        }
    }
}

/// [`parse_unary`] is sound.
pub proof fn lemma_unary(ts: Seq<Token>, pos: int, vars: Seq<Local>)
    requires
        pos >= 0,
    ensures
        ok(ts, pos, vars, parse_unary(ts, pos, vars)),
    decreases left(ts.len(), pos), 1nat,
{
    lemma_parse_unary(ts, pos, vars);
    if token_at(ts, pos) == Some(Token::Minus) || token_at(ts, pos) == Some(Token::Plus) {
        lemma_primary(ts, pos + 1, vars);
    } else {
        lemma_primary(ts, pos, vars);
    }
}

/// [`parse_mul`] is sound.
pub proof fn lemma_mul(ts: Seq<Token>, pos: int, vars: Seq<Local>)
    requires
        pos >= 0,
    ensures
        ok(ts, pos, vars, parse_mul(ts, pos, vars)),
    decreases left(ts.len(), pos), 3nat,
{
    lemma_parse_mul(ts, pos, vars);
    lemma_unary(ts, pos, vars);
    match parse_unary(ts, pos, vars) {
        Ok(first) => lemma_mul_rest(ts, pos, first, vars),
        Err(_) => {},
    }
}

/// [`parse_mul_rest`] is sound behind a sound operand.
pub proof fn lemma_mul_rest(ts: Seq<Token>, pos: int, acc: Parsed, vars: Seq<Local>)
    requires
        pos >= 0,
        sound(ts, pos, vars, acc.used, acc.vars),
        tokens_in_range(ts) ==> in_range(acc.node),
    ensures
        ok(ts, pos, vars, parse_mul_rest(ts, pos, acc)),
    decreases left(ts.len(), pos + acc.used), 2nat,
{
    lemma_parse_mul_rest(ts, pos, acc);
    let op = token_at(ts, pos + acc.used);
    if op == Some(Token::Mul) || op == Some(Token::Div) {
        lemma_unary(ts, pos + acc.used + 1, acc.vars);
        match parse_unary(ts, pos + acc.used + 1, acc.vars) {
            Ok(rhs) => {
                lemma_sound_then(ts, pos, vars, acc.used, acc.vars, 1, rhs.used, rhs.vars);
                let node = if op == Some(Token::Mul) {
                    Node::Mul(Box::new(acc.node), Box::new(rhs.node))
                } else {
                    Node::Div(Box::new(acc.node), Box::new(rhs.node))
                };
                lemma_mul_rest(
                    ts,
                    pos,
                    Parsed { node, used: acc.used + 1 + rhs.used, vars: rhs.vars },
                    vars,
                );
            },
            Err(_) => {},
        }
    }
}

/// [`parse_add`] is sound.
pub proof fn lemma_add(ts: Seq<Token>, pos: int, vars: Seq<Local>)
    requires
        pos >= 0,
    ensures
        ok(ts, pos, vars, parse_add(ts, pos, vars)),
    decreases left(ts.len(), pos), 5nat,
{
    lemma_parse_add(ts, pos, vars);
    lemma_mul(ts, pos, vars);
    match parse_mul(ts, pos, vars) {
        Ok(first) => lemma_add_rest(ts, pos, first, vars),
        Err(_) => {},
    }
}

/// [`parse_add_rest`] is sound behind a sound operand.
pub proof fn lemma_add_rest(ts: Seq<Token>, pos: int, acc: Parsed, vars: Seq<Local>)
    requires
        pos >= 0,
        sound(ts, pos, vars, acc.used, acc.vars),
        tokens_in_range(ts) ==> in_range(acc.node),
    ensures
        ok(ts, pos, vars, parse_add_rest(ts, pos, acc)),
    decreases left(ts.len(), pos + acc.used), 4nat,
{
    lemma_parse_add_rest(ts, pos, acc);
    let op = token_at(ts, pos + acc.used);
    if op == Some(Token::Plus) || op == Some(Token::Minus) {
        lemma_mul(ts, pos + acc.used + 1, acc.vars);
        match parse_mul(ts, pos + acc.used + 1, acc.vars) {
            Ok(rhs) => {
                lemma_sound_then(ts, pos, vars, acc.used, acc.vars, 1, rhs.used, rhs.vars);
                let node = if op == Some(Token::Plus) {
                    Node::Plus(Box::new(acc.node), Box::new(rhs.node))
                } else {
                    Node::Minus(Box::new(acc.node), Box::new(rhs.node))
                };
                lemma_add_rest(
                    ts,
                    pos,
                    Parsed { node, used: acc.used + 1 + rhs.used, vars: rhs.vars },
                    vars,
                );
            },
            Err(_) => {},
        }
    }
}

/// [`parse_relational`] is sound.
pub proof fn lemma_relational(ts: Seq<Token>, pos: int, vars: Seq<Local>)
    requires
        pos >= 0,
    ensures
        ok(ts, pos, vars, parse_relational(ts, pos, vars)),
    decreases left(ts.len(), pos), 7nat,
{
    lemma_parse_relational(ts, pos, vars);
    lemma_add(ts, pos, vars);
    match parse_add(ts, pos, vars) {
        Ok(first) => lemma_relational_rest(ts, pos, first, vars),
        Err(_) => {},
    }
}

/// [`parse_relational_rest`] is sound behind a sound operand.
pub proof fn lemma_relational_rest(ts: Seq<Token>, pos: int, acc: Parsed, vars: Seq<Local>)
    requires
        pos >= 0,
        sound(ts, pos, vars, acc.used, acc.vars),
        tokens_in_range(ts) ==> in_range(acc.node),
    ensures
        ok(ts, pos, vars, parse_relational_rest(ts, pos, acc)),
    decreases left(ts.len(), pos + acc.used), 6nat,
{
    lemma_parse_relational_rest(ts, pos, acc);
    match token_at(ts, pos + acc.used) {
        Some(op) => {
            if op == Token::Lt || op == Token::Le || op == Token::Gt || op == Token::Ge {
                lemma_add(ts, pos + acc.used + 1, acc.vars);
                match parse_add(ts, pos + acc.used + 1, acc.vars) {
                    Ok(rhs) => {
                        lemma_sound_then(ts, pos, vars, acc.used, acc.vars, 1, rhs.used, rhs.vars);
                        lemma_relational_rest(
                            ts,
                            pos,
                            Parsed {
                                node: relation(op, acc.node, rhs.node)->Some_0,
                                used: acc.used + 1 + rhs.used,
                                vars: rhs.vars,
                            },
                            vars,
                        );
                    },
                    Err(_) => {},
                }
            }
        },
        None => {},
    }
}

/// [`parse_equality`] is sound.
pub proof fn lemma_equality(ts: Seq<Token>, pos: int, vars: Seq<Local>)
    requires
        pos >= 0,
    ensures
        ok(ts, pos, vars, parse_equality(ts, pos, vars)),
    decreases left(ts.len(), pos), 9nat,
{
    lemma_parse_equality(ts, pos, vars);
    lemma_relational(ts, pos, vars);
    match parse_relational(ts, pos, vars) {
        Ok(first) => lemma_equality_rest(ts, pos, first, vars),
        Err(_) => {},
    }
}

/// [`parse_equality_rest`] is sound behind a sound operand.
pub proof fn lemma_equality_rest(ts: Seq<Token>, pos: int, acc: Parsed, vars: Seq<Local>)
    requires
        pos >= 0,
        sound(ts, pos, vars, acc.used, acc.vars),
        tokens_in_range(ts) ==> in_range(acc.node),
    ensures
        ok(ts, pos, vars, parse_equality_rest(ts, pos, acc)),
    decreases left(ts.len(), pos + acc.used), 8nat,
{
    lemma_parse_equality_rest(ts, pos, acc);
    let op = token_at(ts, pos + acc.used);
    if op == Some(Token::Eq) || op == Some(Token::Ne) {
        lemma_relational(ts, pos + acc.used + 1, acc.vars);
        match parse_relational(ts, pos + acc.used + 1, acc.vars) {
            Ok(rhs) => {
                lemma_sound_then(ts, pos, vars, acc.used, acc.vars, 1, rhs.used, rhs.vars);
                let node = if op == Some(Token::Eq) {
                    Node::Eq(Box::new(acc.node), Box::new(rhs.node))
                } else {
                    Node::Ne(Box::new(acc.node), Box::new(rhs.node))
                };
                lemma_equality_rest(
                    ts,
                    pos,
                    Parsed { node, used: acc.used + 1 + rhs.used, vars: rhs.vars },
                    vars,
                );
            },
            Err(_) => {},
        }
    }
}

/// [`parse_assign`] is sound.
pub proof fn lemma_assign(ts: Seq<Token>, pos: int, vars: Seq<Local>)
    requires
        pos >= 0,
    ensures
        ok(ts, pos, vars, parse_assign(ts, pos, vars)),
    decreases left(ts.len(), pos), 10nat,
{
    lemma_parse_assign(ts, pos, vars);
    lemma_equality(ts, pos, vars);
    match parse_equality(ts, pos, vars) {
        Ok(lhs) => {
            if token_at(ts, pos + lhs.used) == Some(Token::Assign) {
                lemma_assign(ts, pos + lhs.used + 1, lhs.vars);
                match parse_assign(ts, pos + lhs.used + 1, lhs.vars) {
                    Ok(rhs) => {
                        lemma_sound_then(ts, pos, vars, lhs.used, lhs.vars, 1, rhs.used, rhs.vars);
                    },
                    Err(_) => {},
                }
            }
        },
        Err(_) => {},
    }
}

/// [`parse_expr`] is sound.
pub proof fn lemma_expr(ts: Seq<Token>, pos: int, vars: Seq<Local>)
    requires
        pos >= 0,
    ensures
        ok(ts, pos, vars, parse_expr(ts, pos, vars)),
    decreases left(ts.len(), pos), 11nat,
{
    lemma_parse_expr(ts, pos, vars);
    lemma_assign(ts, pos, vars);
}

/// [`parse_expr_stmt`] is sound.
pub proof fn lemma_expr_stmt(ts: Seq<Token>, pos: int, vars: Seq<Local>)
    requires
        pos >= 0,
    ensures
        ok(ts, pos, vars, parse_expr_stmt(ts, pos, vars)),
    decreases left(ts.len(), pos), 12nat,
{
    lemma_parse_expr_stmt(ts, pos, vars);
    lemma_expr(ts, pos, vars);
}

/// [`parse_clause`] is sound.
pub proof fn lemma_clause(ts: Seq<Token>, pos: int, vars: Seq<Local>, end: Token)
    requires
        pos >= 0,
    ensures
        ok_clause(ts, pos, vars, parse_clause(ts, pos, vars, end)),
    decreases left(ts.len(), pos), 12nat,
{
    lemma_parse_clause(ts, pos, vars, end);
    if token_at(ts, pos) != Some(end) {
        lemma_expr(ts, pos, vars);
    }
}

/// [`parse_if`] is sound.
pub proof fn lemma_if(ts: Seq<Token>, pos: int, vars: Seq<Local>)
    requires
        pos >= 0,
    ensures
        ok(ts, pos, vars, parse_if(ts, pos, vars)),
    decreases left(ts.len(), pos + 1), 15nat,
{
    lemma_parse_if(ts, pos, vars);
    if token_at(ts, pos + 1) == Some(Token::LeftParen) {
        lemma_expr(ts, pos + 2, vars);
        match parse_expr(ts, pos + 2, vars) {
            Ok(c) => {
                if token_at(ts, pos + 2 + c.used) == Some(Token::RightParen) {
                    lemma_stmt(ts, pos + 3 + c.used, c.vars);
                    match parse_stmt(ts, pos + 3 + c.used, c.vars) {
                        Ok(t) => {
                            lemma_sound_then(ts, pos + 2, vars, c.used, c.vars, 1, t.used, t.vars);
                            if token_at(ts, pos + 3 + c.used + t.used) == Some(Token::Else) {
                                lemma_stmt(ts, pos + 4 + c.used + t.used, t.vars);
                                match parse_stmt(ts, pos + 4 + c.used + t.used, t.vars) {
                                    Ok(f) => {
                                        lemma_sound_then(
                                            ts,
                                            pos + 2,
                                            vars,
                                            c.used + 1 + t.used,
                                            t.vars,
                                            1,
                                            f.used,
                                            f.vars,
                                        );
                                    },
                                    Err(_) => {},
                                }
                            }
                        },
                        Err(_) => {},
                    }
                }
            },
            Err(_) => {},
        }
    }
}

/// [`parse_for`] is sound.
pub proof fn lemma_for(ts: Seq<Token>, pos: int, vars: Seq<Local>)
    requires
        pos >= 0,
    ensures
        ok(ts, pos, vars, parse_for(ts, pos, vars)),
    decreases left(ts.len(), pos + 1), 15nat,
{
    lemma_parse_for(ts, pos, vars);
    if token_at(ts, pos + 1) == Some(Token::LeftParen) {
        lemma_clause(ts, pos + 2, vars, Token::Semicolon);
        match parse_clause(ts, pos + 2, vars, Token::Semicolon) {
            Ok(init) => {
                lemma_clause(ts, pos + 2 + init.used, init.vars, Token::Semicolon);
                match parse_clause(ts, pos + 2 + init.used, init.vars, Token::Semicolon) {
                    Ok(cond) => {
                        lemma_sound_then(
                            ts,
                            pos + 2,
                            vars,
                            init.used,
                            init.vars,
                            0,
                            cond.used,
                            cond.vars,
                        );
                        lemma_clause(
                            ts,
                            pos + 2 + init.used + cond.used,
                            cond.vars,
                            Token::RightParen,
                        );
                        match parse_clause(
                            ts,
                            pos + 2 + init.used + cond.used,
                            cond.vars,
                            Token::RightParen,
                        ) {
                            Ok(inc) => {
                                lemma_sound_then(
                                    ts,
                                    pos + 2,
                                    vars,
                                    init.used + cond.used,
                                    cond.vars,
                                    0,
                                    inc.used,
                                    inc.vars,
                                );
                                lemma_stmt(
                                    ts,
                                    pos + 2 + init.used + cond.used + inc.used,
                                    inc.vars,
                                );
                                match parse_stmt(
                                    ts,
                                    pos + 2 + init.used + cond.used + inc.used,
                                    inc.vars,
                                ) {
                                    Ok(body) => {
                                        lemma_sound_then(
                                            ts,
                                            pos + 2,
                                            vars,
                                            init.used + cond.used + inc.used,
                                            inc.vars,
                                            0,
                                            body.used,
                                            body.vars,
                                        );
                                    },
                                    Err(_) => {},
                                }
                            },
                            Err(_) => {},
                        }
                    },
                    Err(_) => {},
                }
            },
            Err(_) => {},
        }
    }
}

/// [`parse_while`] is sound.
pub proof fn lemma_while(ts: Seq<Token>, pos: int, vars: Seq<Local>)
    requires
        pos >= 0,
    ensures
        ok(ts, pos, vars, parse_while(ts, pos, vars)),
    decreases left(ts.len(), pos + 1), 15nat,
{
    lemma_parse_while(ts, pos, vars);
    if token_at(ts, pos + 1) == Some(Token::LeftParen) {
        lemma_expr(ts, pos + 2, vars);
        match parse_expr(ts, pos + 2, vars) {
            Ok(c) => {
                if token_at(ts, pos + 2 + c.used) == Some(Token::RightParen) {
                    lemma_stmt(ts, pos + 3 + c.used, c.vars);
                    match parse_stmt(ts, pos + 3 + c.used, c.vars) {
                        Ok(body) => {
                            lemma_sound_then(
                                ts,
                                pos + 2,
                                vars,
                                c.used,
                                c.vars,
                                1,
                                body.used,
                                body.vars,
                            );
                        },
                        Err(_) => {},
                    }
                }
            },
            Err(_) => {},
        }
    }
}

/// [`parse_return`] is sound.
pub proof fn lemma_return(ts: Seq<Token>, pos: int, vars: Seq<Local>)
    requires
        pos >= 0,
    ensures
        ok(ts, pos, vars, parse_return(ts, pos, vars)),
    decreases left(ts.len(), pos + 1), 15nat,
{
    lemma_parse_return(ts, pos, vars);
    lemma_expr(ts, pos + 1, vars);
}

/// [`parse_stmt`] is sound: a statement takes at least one token.
pub proof fn lemma_stmt(ts: Seq<Token>, pos: int, vars: Seq<Local>)
    requires
        pos >= 0,
    ensures
        ok(ts, pos, vars, parse_stmt(ts, pos, vars)),
    decreases left(ts.len(), pos), 13nat,
{
    lemma_parse_stmt(ts, pos, vars);
    match token_at(ts, pos) {
        Some(Token::If) => lemma_if(ts, pos, vars),
        Some(Token::For) => lemma_for(ts, pos, vars),
        Some(Token::While) => lemma_while(ts, pos, vars),
        Some(Token::Return) => lemma_return(ts, pos, vars),
        Some(Token::LeftBrace) => lemma_stmts_rest(
            ts,
            pos,
            ParsedList { nodes: Seq::empty(), used: 1, vars },
            vars,
        ),
        _ => lemma_expr_stmt(ts, pos, vars),
    }
}

/// [`parse_stmts_rest`] is sound behind sound statements, and always goes
/// on behind a statement.
pub proof fn lemma_stmts_rest(ts: Seq<Token>, pos: int, acc: ParsedList, vars: Seq<Local>)
    requires
        pos >= 0,
        sound(ts, pos, vars, acc.used, acc.vars),
        tokens_in_range(ts) ==> all_in_range(acc.nodes),
    ensures
        ok_list(ts, pos, vars, parse_stmts_rest(ts, pos, acc)),
        token_at(ts, pos + acc.used) != Some(Token::RightBrace) ==> match parse_stmt(
            ts,
            pos + acc.used,
            acc.vars,
        ) {
            Ok(s) => parse_stmts_rest(ts, pos, acc) == parse_stmts_rest(
                ts,
                pos,
                ParsedList {
                    nodes: acc.nodes.push(s.node),
                    used: acc.used + s.used,
                    vars: s.vars,
                },
            ),
            Err(e) => parse_stmts_rest(ts, pos, acc) == Err::<ParsedList, ParseError>(e),
        },
    decreases left(ts.len(), pos + acc.used), 14nat,
{
    lemma_parse_stmts_rest(ts, pos, acc);
    if token_at(ts, pos + acc.used) != Some(Token::RightBrace) {
        lemma_stmt(ts, pos + acc.used, acc.vars);
        match parse_stmt(ts, pos + acc.used, acc.vars) {
            Ok(s) => {
                lemma_sound_then(ts, pos, vars, acc.used, acc.vars, 0, s.used, s.vars);
                lemma_stmts_rest(
                    ts,
                    pos,
                    ParsedList {
                        nodes: acc.nodes.push(s.node),
                        used: acc.used + s.used,
                        vars: s.vars,
                    },
                    vars,
                );
            },
            Err(_) => {},
        }
    }
}

/// [`parse_params_rest`] keeps a canonical table canonical and ends inside
/// the input.
pub proof fn lemma_params_rest(ts: Seq<Token>, pos: int, acc: ParsedList)
    requires
        pos >= 0,
        canonical(acc.vars),
        all_in_range(acc.nodes),
    ensures
        parse_params_rest(ts, pos, acc) matches Ok(p) ==> p.used >= 2 && pos + p.used
            <= ts.len() && canonical(p.vars) && all_in_range(p.nodes),
    decreases left(ts.len(), pos + acc.used),
{
    lemma_parse_params_rest(ts, pos, acc);
    match token_at(ts, pos + acc.used) {
        Some(Token::Ident(name)) => {
            if find(acc.vars, name) is None {
                lemma_variable(acc.vars, name, pos + acc.used);
                match variable(acc.vars, name, pos + acc.used) {
                    Ok((offset, vars)) => {
                        if token_at(ts, pos + acc.used + 1) == Some(Token::Comma) {
                            lemma_params_rest(
                                ts,
                                pos,
                                ParsedList {
                                    nodes: acc.nodes.push(Node::LVar(offset)),
                                    used: acc.used + 2,
                                    vars,
                                },
                            );
                        }
                    },
                    Err(_) => {},
                }
            }
        },
        _ => {},
    }
}

/// [`parse_toplevel`] takes at least one token and none beyond the end of
/// the input, and leaves a canonical table: in every function, the
/// parameters and the variables of the body have the offsets 8, 16, 24 and
/// so on in the order in which their names first appear, no two names share
/// an offset, and all of them lie inside the frame.
pub proof fn lemma_toplevel(ts: Seq<Token>, pos: int)
    requires
        pos >= 0,
    ensures
        parse_toplevel(ts, pos) matches Ok(f) ==> f.used >= 1 && pos + f.used <= ts.len()
            && canonical(f.vars) && (tokens_in_range(ts) ==> in_range(f.node)),
{
    lemma_parse_toplevel(ts, pos);
    lemma_parse_params(ts, pos + 2);
    let none = ParsedList { nodes: Seq::empty(), used: 0, vars: Seq::empty() };
    lemma_params_rest(ts, pos + 2, none);
    match parse_params(ts, pos + 2) {
        Ok(params) => {
            if token_at(ts, pos + 2 + params.used) == Some(Token::LeftBrace) {
                let start = ParsedList { nodes: Seq::empty(), used: 1, vars: params.vars };
                lemma_stmts_rest(ts, pos + 2 + params.used, start, params.vars);
                match parse_stmts_rest(ts, pos + 2 + params.used, start) {
                    Ok(body) => {
                        assert(tokens_in_range(ts) ==> in_range(Node::CompStmt(body.nodes)));
                    },
                    Err(_) => {},
                }
            }
        },
        Err(_) => {},
    }
}

/// A program always goes on behind a function: what [`parse_program_rest`]
/// makes of the input behind a function is what it makes of the whole.
pub proof fn lemma_program_rest(ts: Seq<Token>, pos: int, acc: Seq<Node>)
    requires
        0 <= pos < ts.len(),
    ensures
        match parse_toplevel(ts, pos) {
            Ok(f) => parse_program_rest(ts, pos, acc) == parse_program_rest(
                ts,
                pos + f.used,
                acc.push(f.node),
            ),
            Err(e) => parse_program_rest(ts, pos, acc) == Err::<Seq<Node>, ParseError>(e),
        },
{
    lemma_parse_program_rest(ts, pos, acc);
    lemma_toplevel(ts, pos);
}

/// The literals of the trees of a program are in range if the numbers
/// among its tokens are: the trees that the parser makes of the tokens that
/// the lexer makes have literals that are not negative and not above
/// `i32::MAX`.
pub proof fn lemma_program_in_range(ts: Seq<Token>, pos: int, acc: Seq<Node>)
    requires
        pos >= 0,
        tokens_in_range(ts),
        all_in_range(acc),
    ensures
        parse_program_rest(ts, pos, acc) matches Ok(nodes) ==> all_in_range(nodes),
    decreases left(ts.len(), pos),
{
    lemma_parse_program_rest(ts, pos, acc);
    if pos < ts.len() {
        lemma_toplevel(ts, pos);
        match parse_toplevel(ts, pos) {
            Ok(f) => lemma_program_in_range(ts, pos + f.used, acc.push(f.node)),
            Err(_) => {},
        }
    }
}


} // verus!
