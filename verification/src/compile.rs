//! The whole compiler: source text to assembly text.

use vstd::prelude::*;
use crate::gen_ir::{
    FunctionView, LowerError, gen_ir, lemma_lower_program_from, lower_function, lower_program,
    lower_program_from,
};
use crate::gen_x86::{EmitError, emit_program, gen_x86};
use crate::labels::{balanced, lemma_function_is_balanced};
use crate::machine::{
    Machine, bind, effects, follows, lemma_function_is_implemented, meaning, runs,
};
use crate::parse::{Node, ParseError, all_in_range, in_range, parse, parse_program};
use crate::progress::lemma_program_in_range;
use crate::token::{LexError, lemma_lex_in_range, lex, tokenize};

verus! {

/// Why a text was not compiled: the stage that stopped, and its error.
#[derive(Debug, Clone, Copy, PartialEq, Eq, Structural)]
pub enum CompileError {
    /// The text has a character that starts no token, or a number that is
    /// too large.
    Lex(LexError),
    /// The tokens do not follow the grammar.
    Parse(ParseError),
    /// A tree has no instructions: a loop or a call.
    Lower(LowerError),
    /// An instruction has no assembly: it uses more registers than there
    /// are.
    Emit(EmitError),
}

/// The assembly text of the source text `src`: its tokens, parsed, lowered
/// and written out; or the error of the first stage that fails.
pub open spec fn compile_text(src: Seq<char>) -> Result<Seq<char>, CompileError> {
    match lex(src) {
        Err(e) => Err(CompileError::Lex(e)),
        Ok(tokens) => match parse_program(tokens) {
            Err(e) => Err(CompileError::Parse(e)),
            Ok(nodes) => match lower_program(nodes) {
                Err(e) => Err(CompileError::Lower(e)),
                Ok(fns) => match emit_program(fns) {
                    Err(e) => Err(CompileError::Emit(e)),
                    Ok(text) => Ok(text),
                },
            },
        },
    }
}

/// Compiles the source text `input` to assembly text. No text comes out
/// unless every stage succeeds.
pub fn compile(input: &str) -> (r: Result<String, CompileError>)
    ensures
        match compile_text(input@) {
            Ok(text) => r is Ok && r->Ok_0@ == text,
            Err(e) => r == Err::<String, CompileError>(e),
        },
{
    let tokens = match tokenize(input) {
        Ok(tokens) => tokens,
        Err(e) => {
            return Err(CompileError::Lex(e));
        },
    };
    let nodes = match parse(&tokens) {
        Ok(nodes) => nodes,
        Err(e) => {
            return Err(CompileError::Parse(e));
        },
    };
    let fns = match gen_ir(nodes) {
        Ok(fns) => fns,
        Err(e) => {
            return Err(CompileError::Lower(e));
        },
    };
    match gen_x86(fns) {
        Ok(text) => Ok(text),
        Err(e) => Err(CompileError::Emit(e)),
    }
}

/// The trees and the lowered functions of the text `src`, if the text has
/// them.
pub open spec fn lowered_text(src: Seq<char>) -> Option<(Seq<Node>, Seq<FunctionView>)> {
    match lex(src) {
        Ok(tokens) => match parse_program(tokens) {
            Ok(nodes) => match lower_program(nodes) {
                Ok(fns) => Some((nodes, fns)),
                Err(_) => None,
            },
            Err(_) => None,
        },
        Err(_) => None,
    }
}

/// Whether the function `f` ends on the machine `m`: it is a function with
/// a body of statements that end when the parameters hold the arguments of
/// `m`.
pub open spec fn ends(f: Node, m: Machine) -> bool {
    &&& f matches Node::Func(_, params, body, _)
    &&& *body matches Node::CompStmt(stmts)
    &&& effects(stmts, 0, bind(params, 0, m.memory, m.args)) is Some
}

/// The lowered functions of a program are those of its trees, one by one.
pub proof fn lemma_lowered_one_by_one(nodes: Seq<Node>, from: int, acc: Seq<FunctionView>)
    requires
        0 <= from <= nodes.len(),
        acc.len() == from,
        forall|k: int|
            0 <= k < from ==> (lower_function(#[trigger] nodes[k]) matches Ok(f) && acc[k]
                == f.function),
    ensures
        lower_program_from(nodes, from, acc) matches Ok(fns) ==> fns.len() == nodes.len()
            && forall|k: int|
            0 <= k < nodes.len() ==> (lower_function(#[trigger] nodes[k]) matches Ok(f) && fns[k]
                == f.function),
    decreases nodes.len() - from,
{
    lemma_lower_program_from(nodes, from, acc);
    if from < nodes.len() {
        match lower_function(nodes[from]) {
            Ok(f) => {
                let next = acc.push(f.function);
                assert forall|k: int| 0 <= k < from + 1 implies (lower_function(
                    #[trigger] nodes[k],
                ) matches Ok(g) && next[k] == g.function) by {
                    if k < from {
                        assert(next[k] == acc[k]);
                    }
                }
                lemma_lowered_one_by_one(nodes, from + 1, next);
            },
            Err(_) => {},
        }
    }
}

/// The instructions of a compiled program do what the program says. For
/// every function of a text that can be lowered, and on every machine on
/// which the function ends:
/// - the run of the function's instructions from the first one ends as the
///   statements of the function end, with the `Return` of the same value or
///   behind the last instruction with the same memory;
/// - every jump of the instructions goes forward to a label that has one
///   place among them.
///
/// A function that only returns a literal returns that literal, and a
/// function that returns an expression of `+`, `-`, `*` and `/` returns what
/// the operations make of the literals, with the usual precedence, from the
/// left.
///
/// This holds for the functions that take no more registers and labels
/// than can be counted in a `usize`.
pub proof fn lemma_compiled_functions_are_implemented(src: Seq<char>, i: int, m: Machine)
    requires
        lowered_text(src) is Some,
        0 <= i < lowered_text(src)->Some_0.0.len(),
        lower_function(lowered_text(src)->Some_0.0[i]) matches Ok(f) ==> f.regs <= usize::MAX
            && f.labels <= usize::MAX,
        ends(lowered_text(src)->Some_0.0[i], m),
    ensures
        ({
            let (nodes, fns) = lowered_text(src)->Some_0;
            &&& fns.len() == nodes.len()
            &&& lower_function(nodes[i]) matches Ok(f) && fns[i] == f.function && balanced(
                fns[i].code,
                0,
                f.labels,
            )
            &&& follows(fns[i].code, 0, fns[i].code.len() as int, m, meaning(nodes[i], m))
        }),
{
    let tokens = lex(src)->Ok_0;
    let (nodes, fns) = lowered_text(src)->Some_0;
    lemma_lex_in_range(src, 0);
    lemma_program_in_range(tokens, 0, Seq::empty());
    lemma_lowered_one_by_one(nodes, 0, Seq::empty());
    lemma_function_is_balanced(nodes[i]);
    lemma_function_is_implemented(nodes[i]);
    assert(in_range(nodes[i]));
    match nodes[i] {
        Node::Func(_, params, body, _) => {
            assert(in_range(*body));
            assert(all_in_range(body->CompStmt_0));
        },
        _ => {},
    }
    assert(runs(nodes[i], m));
}

} // verus!
