use vstd::prelude::*;
use vstd::string::*;
use crate::ast::{ASTNode, Node, node_model, nodes_model};
use crate::lexer::{Token, Tok, toks};

verus! {

/// The decimal digits of `n`.
pub open spec fn decimal(n: nat) -> Seq<char>
    decreases n,
{
    if n < 10 {
        seq!["0123456789"@[n as int]]
    } else {
        decimal(n / 10).push("0123456789"@[(n % 10) as int])
    }
}

/// Relies on `usize::to_string`: the decimal digits of `n`.
#[verifier::external_body]
fn decimal_text(n: usize) -> (r: String)
    ensures
        r@ == decimal(n as nat),
{
    n.to_string()
}

pub open spec fn expected_name_message(pos: int) -> Seq<char> {
    "Expected a function name at "@ + decimal(pos as nat) + "."@
}

pub open spec fn expected_close_message(pos: int) -> Seq<char> {
    "Expected a ) at "@ + decimal(pos as nat) + "."@
}

pub open spec fn unexpected_message(text: Seq<char>, pos: int) -> Seq<char> {
    "Unexpected "@ + text + " at "@ + decimal(pos as nat)
}

/// How a token that cannot start a node is shown in a message.
pub open spec fn token_text(t: Tok) -> Seq<char> {
    match t {
        Tok::Symbol(s) => s,
        _ => ")"@,
    }
}

/// The node that begins at token `i` of `ts`, and the index just after it.
/// Positions in messages count the tokens consumed so far.
pub open spec fn walk(ts: Seq<Tok>, i: int) -> (Node, int)
    decreases ts.len() - i, 0int,
{
    if i < 0 || i >= ts.len() {
        (Node::End, i)
    } else {
        match ts[i] {
            Tok::Integer(v) => (Node::Number(v), i + 1),
            Tok::Text(s) => (Node::Text(s), i + 1),
            Tok::LeftParen => {
                if i + 1 < ts.len() && ts[i + 1] is Symbol {
                    walk_params(ts, i + 2, ts[i + 1]->Symbol_0, seq![])
                } else {
                    let next = if i + 1 < ts.len() { i + 2 } else { i + 1 };
                    (Node::Error(expected_name_message(next)), next)
                }
            },
            t => (Node::Error(unexpected_message(token_text(t), i + 1)), i + 1),
        }
    }
}

/// The rest of a call named `name` whose parameters so far are `acc`, from token `i` on.
pub open spec fn walk_params(ts: Seq<Tok>, i: int, name: Seq<char>, acc: Seq<Node>) -> (Node, int)
    decreases ts.len() - i, 1int,
{
    if i < 0 || i >= ts.len() {
        (Node::Error(expected_close_message(ts.len() as int)), ts.len() as int)
    } else if ts[i] is RightParen {
        (Node::Call(name, acc), i + 1)
    } else {
        let (n, j) = walk(ts, i);
        if i < j <= ts.len() {
            walk_params(ts, j, name, acc.push(n))
        } else {
            (n, j)
        }
    }
}

/// The body of the program formed by the tokens of `ts` from `i` on.
pub open spec fn program_from(ts: Seq<Tok>, i: int) -> Seq<Node>
    decreases ts.len() - i,
{
    if i < 0 || i >= ts.len() {
        seq![Node::End]
    } else {
        let (n, j) = walk(ts, i);
        if i < j <= ts.len() {
            seq![n] + program_from(ts, j)
        } else {
            seq![n]
        }
    }
}

/// The tree that parsing `ts` gives.
pub open spec fn parse(ts: Seq<Tok>) -> Node {
    Node::Program(program_from(ts, 0))
}

fn message(prefix: &str, pos: usize, suffix: &str) -> (r: String)
    ensures
        r@ == prefix@ + decimal(pos as nat) + suffix@,
{
    let mut m = String::from_str(prefix);
    let digits = decimal_text(pos);
    m.append(digits.as_str());
    m.append(suffix);
    m
}

fn unexpected(text: &str, pos: usize) -> (r: String)
    ensures
        r@ == unexpected_message(text@, pos as int),
{
    let mut m = String::from_str("Unexpected ");
    m.append(text);
    m.append(" at ");
    let digits = decimal_text(pos);
    m.append(digits.as_str());
    m
}

fn walk_tokens(tokens: &Vec<Token>, i: usize) -> (r: (ASTNode, usize))
    requires
        i <= tokens@.len(),
    ensures
        (node_model(r.0), r.1 as int) == walk(toks(tokens@), i as int),
        r.1 <= tokens@.len(),
        i < tokens@.len() ==> i < r.1 && !(r.0 is EndOfInput),
    decreases tokens@.len() - i,
{
    let ghost ts = toks(tokens@);
    let n = tokens.len();
    if i >= n {
        return (ASTNode::EndOfInput, i);
    }
    assert(ts[i as int] == tokens@[i as int]@);
    match &tokens[i] {
        Token::Integer(v) => (ASTNode::NumberLiteral(*v), i + 1),
        Token::String(s) => (ASTNode::StringLiteral(s.clone()), i + 1),
        Token::LeftParen => {
            let name = if i + 1 < n {
                match &tokens[i + 1] {
                    Token::Symbol(s) => Some(s.clone()),
                    _ => None,
                }
            } else {
                None
            };
            let name = match name {
                Some(s) => s,
                None => {
                    let next = if i + 1 < n { i + 2 } else { i + 1 };
                    let m = message("Expected a function name at ", next, ".");
                    return (ASTNode::ErrorNode(m), next);
                },
            };
            let ghost sname = name@;
            proof {
                assert(ts[i + 1] == tokens@[i + 1]@);
            }
            let mut params: Vec<ASTNode> = Vec::new();
            let mut k = i + 2;
            proof {
                assert(nodes_model(params@) =~= seq![]);
            }
            loop
                invariant
                    ts == toks(tokens@),
                    n == tokens@.len(),
                    i + 2 <= k <= n,
                    sname == name@,
                    walk(ts, i as int) == walk_params(ts, k as int, sname, nodes_model(params@)),
                decreases n - k,
            {
                if k >= n {
                    let m = message("Expected a ) at ", n, ".");
                    return (ASTNode::ErrorNode(m), n);
                }
                if let Token::RightParen = &tokens[k] {
                    return (ASTNode::CallExpression { name, params }, k + 1);
                }
                let (node, j) = walk_tokens(tokens, k);
                let ghost before = nodes_model(params@);
                let ghost nm = node_model(node);
                params.push(node);
                proof {
                    assert(nodes_model(params@) =~= before.push(nm));
                }
                k = j;
            }
        },
        Token::RightParen => (ASTNode::ErrorNode(unexpected(")", i + 1)), i + 1),
        Token::Symbol(s) => (ASTNode::ErrorNode(unexpected(s.as_str(), i + 1)), i + 1),
    }
}

/// Builds the syntax tree of `input`. Malformed input gives `ErrorNode`s in the
/// tree; the body always ends with `EndOfInput`.
pub fn parser(input: Vec<Token>) -> (r: ASTNode)
    ensures
        node_model(r) == parse(toks(input@)),
{
    let ghost ts = toks(input@);
    let n = input.len();
    let mut body: Vec<ASTNode> = Vec::new();
    let mut i: usize = 0;
    proof {
        assert(nodes_model(body@) =~= seq![]);
    }
    loop
        invariant_except_break
            nodes_model(body@) + program_from(ts, i as int) == program_from(ts, 0),
        invariant
            ts == toks(input@),
            n == input@.len(),
            i <= n,
        ensures
            nodes_model(body@) == program_from(ts, 0),
        decreases n - i,
    {
        let (node, j) = walk_tokens(&input, i);
        let end = node.is_eof();
        let ghost before = nodes_model(body@);
        let ghost nm = node_model(node);
        body.push(node);
        proof {
            assert(nodes_model(body@) =~= before.push(nm));
        }
        if end {
            proof {
                assert(nodes_model(body@) =~= program_from(ts, 0));
            }
            break;
        }
        proof {
            assert(before + program_from(ts, i as int) =~= before.push(nm) + program_from(ts, j as int));
        }
        i = j;
    }
    ASTNode::Program(body)
}

/// The node that `walk` reads from a token in `ts` ends after it, within `ts`.
pub proof fn lemma_walk_advances(ts: Seq<Tok>, i: int)
    requires
        0 <= i < ts.len(),
    ensures
        i < walk(ts, i).1 <= ts.len(),
    decreases ts.len() - i, 0int,
{
    if ts[i] is LeftParen && i + 1 < ts.len() && ts[i + 1] is Symbol {
        lemma_walk_params_advances(ts, i + 2, ts[i + 1]->Symbol_0, seq![]);
    }
}

/// The rest of a call ends within `ts`, and after `i` where tokens remain.
pub proof fn lemma_walk_params_advances(ts: Seq<Tok>, i: int, name: Seq<char>, acc: Seq<Node>)
    requires
        0 <= i <= ts.len(),
    ensures
        i <= walk_params(ts, i, name, acc).1 <= ts.len(),
        i < ts.len() ==> i < walk_params(ts, i, name, acc).1,
    decreases ts.len() - i, 1int,
{
    if i < ts.len() && !(ts[i] is RightParen) {
        lemma_walk_advances(ts, i);
        let j = walk(ts, i).1;
        lemma_walk_params_advances(ts, j, name, acc.push(walk(ts, i).0));
    }
}

/// Where no `)` follows, the rest of a call is an error node for the missing
/// `)` that ends with the tokens.
pub proof fn lemma_unclosed_params(ts: Seq<Tok>, i: int, name: Seq<char>, acc: Seq<Node>)
    requires
        0 <= i <= ts.len(),
        forall|k: int| i <= k < ts.len() ==> !(#[trigger] ts[k] is RightParen),
    ensures
        walk_params(ts, i, name, acc) == (
        Node::Error(expected_close_message(ts.len() as int)),
        ts.len() as int,
        ),
    decreases ts.len() - i,
{
    if i < ts.len() {
        lemma_walk_advances(ts, i);
        let j = walk(ts, i).1;
        lemma_unclosed_params(ts, j, name, acc.push(walk(ts, i).0));
    }
}

} // verus!
