//! A small S-expression language: `lexer::tokenizer` turns source text into
//! tokens, `parser::parser` builds a syntax tree in which malformed input
//! stands as `ErrorNode`s, and `eval::execute` walks the tree to a list of
//! integers.
use vstd::prelude::*;
use crate::ast::{ASTNode, node_model};
use crate::ast::Node;
use crate::eval::{EvalErr, EvalError, eval, eval_body, eval_result};
use crate::lexer::{LexError, Tok, Token, lex_from, lex_result, toks};
use crate::parser::{expected_close_message, lemma_unclosed_params, parse, program_from};

pub mod ast;
pub mod eval;
pub mod lexer;
pub mod parser;

verus! {

/// Each stage depends on its input alone: two runs of the pipeline on the same
/// source text give the same tokens, the same tree and the same result.
pub proof fn lemma_pipeline_deterministic(
    source: Seq<char>,
    tokens1: Result<Vec<Token>, LexError>,
    tokens2: Result<Vec<Token>, LexError>,
    tree1: ASTNode,
    tree2: ASTNode,
    result1: Result<Vec<i64>, EvalError>,
    result2: Result<Vec<i64>, EvalError>,
)
    requires
        lex_result(tokens1) == lex_from(source, 0),
        lex_result(tokens2) == lex_from(source, 0),
        tokens1 is Ok ==> node_model(tree1) == parse(toks(tokens1->Ok_0@)),
        tokens2 is Ok ==> node_model(tree2) == parse(toks(tokens2->Ok_0@)),
        eval_result(result1) == eval(node_model(tree1)),
        eval_result(result2) == eval(node_model(tree2)),
    ensures
        lex_result(tokens1) == lex_result(tokens2),
        tokens1 is Ok ==> node_model(tree1) == node_model(tree2),
        tokens1 is Ok ==> eval_result(result1) == eval_result(result2),
{
}

/// Tokens that open a call and hold no `)` parse to one error node for the
/// missing `)`, and evaluating that tree fails on the error node.
pub proof fn lemma_unclosed_call_fails(ts: Seq<Tok>)
    requires
        ts.len() >= 2,
        ts[0] is LeftParen,
        ts[1] is Symbol,
        forall|k: int| 0 <= k < ts.len() ==> !(#[trigger] ts[k] is RightParen),
    ensures
        parse(ts) == Node::Program(
            seq![Node::Error(expected_close_message(ts.len() as int)), Node::End],
        ),
        eval(parse(ts)) == Err::<Seq<i64>, EvalErr>(
            EvalErr::UnexpectedNode {
                description: "ErrorNode("@ + expected_close_message(ts.len() as int) + ")"@,
            },
        ),
{
    lemma_unclosed_params(ts, 2, ts[1]->Symbol_0, seq![]);
    let msg = expected_close_message(ts.len() as int);
    assert(program_from(ts, ts.len() as int) == seq![Node::End]);
    let body = seq![Node::Error(msg), Node::End];
    assert(program_from(ts, 0) =~= body);
    assert(body[0] == Node::Error(msg));
    assert(eval_body(body, 0) == eval(body[0]));
}

} // verus!
