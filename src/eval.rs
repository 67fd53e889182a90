use vstd::prelude::*;
use vstd::string::*;
use crate::ast::{ASTNode, Node, node_model, nodes_model};

verus! {

broadcast use {
    vstd::std_specs::vec::axiom_vec_index_decreases,
    vstd::seq::axiom_seq_index_decreases,
};

/// Why evaluation stopped: an operation other than `add` and `subtract`, a
/// node that has no value (a string literal or an error node), or a sum or
/// difference outside the range of `i64`.
#[derive(Debug, PartialEq, Eq)]
pub enum EvalError {
    UnsupportedOperation { name: String },
    UnexpectedNode { description: String },
    Overflow,
}

/// The value of an `EvalError`.
pub enum EvalErr {
    UnsupportedOperation { name: Seq<char> },
    UnexpectedNode { description: Seq<char> },
    Overflow,
}

impl View for EvalError {
    type V = EvalErr;

    open spec fn view(&self) -> EvalErr {
        match self {
            EvalError::UnsupportedOperation { name } => EvalErr::UnsupportedOperation { name: name@ },
            EvalError::UnexpectedNode { description } => EvalErr::UnexpectedNode {
                description: description@,
            },
            EvalError::Overflow => EvalErr::Overflow,
        }
    }
}

/// The value of what `execute` returns.
pub open spec fn eval_result(r: Result<Vec<i64>, EvalError>) -> Result<Seq<i64>, EvalErr> {
    match r {
        Ok(v) => Ok(v@),
        Err(e) => Err(e@),
    }
}

/// The first value of a result, or 0 where it is empty.
pub open spec fn first_or_zero(r: Seq<i64>) -> i64 {
    if r.len() > 0 {
        r[0]
    } else {
        0
    }
}

/// Whether `v` lies in the range of `i64`.
pub open spec fn fits(v: int) -> bool {
    i64::MIN <= v <= i64::MAX
}

/// The sum of `vals`, if no partial sum leaves the range of `i64`.
pub open spec fn checked_sum(vals: Seq<i64>) -> Option<i64>
    decreases vals.len(),
{
    if vals.len() == 0 {
        Some(0)
    } else {
        match checked_sum(vals.drop_last()) {
            Some(s) => if fits(s + vals.last()) {
                Some((s + vals.last()) as i64)
            } else {
                None
            },
            None => None,
        }
    }
}

/// The first of `vals` less the others, if no partial difference leaves the
/// range of `i64`; 0 for no values.
pub open spec fn checked_difference(vals: Seq<i64>) -> Option<i64>
    decreases vals.len(),
{
    if vals.len() <= 1 {
        Some(first_or_zero(vals))
    } else {
        match checked_difference(vals.drop_last()) {
            Some(d) => if fits(d - vals.last()) {
                Some((d - vals.last()) as i64)
            } else {
                None
            },
            None => None,
        }
    }
}

/// The one-value result of an arithmetic operation, or `Overflow`.
pub open spec fn single(r: Option<i64>) -> Result<Seq<i64>, EvalErr> {
    match r {
        Some(v) => Ok(seq![v]),
        None => Err(EvalErr::Overflow),
    }
}

/// Applies the operation `name` to the first values of its parameters.
pub open spec fn apply(name: Seq<char>, vals: Seq<i64>) -> Result<Seq<i64>, EvalErr> {
    if name == "add"@ {
        single(checked_sum(vals))
    } else if name == "subtract"@ {
        single(checked_difference(vals))
    } else {
        Err(EvalErr::UnsupportedOperation { name })
    }
}

/// What evaluating `n` gives.
pub open spec fn eval(n: Node) -> Result<Seq<i64>, EvalErr>
    decreases n,
{
    match n {
        Node::Program(body) => eval_body(body, 0),
        Node::Number(v) => Ok(seq![v]),
        Node::End => Ok(seq![]),
        Node::Call(name, params) => match first_values(params, 0) {
            Ok(vals) => apply(name, vals),
            Err(e) => Err(e),
        },
        Node::Text(s) => Err(
            EvalErr::UnexpectedNode { description: "StringLiteral("@ + s + ")"@ },
        ),
        Node::Error(m) => Err(EvalErr::UnexpectedNode { description: "ErrorNode("@ + m + ")"@ }),
    }
}

/// The results of `ns` from index `k` on, in order and joined, or the first error.
pub open spec fn eval_body(ns: Seq<Node>, k: int) -> Result<Seq<i64>, EvalErr>
    decreases ns, ns.len() - k,
{
    if k < 0 || k >= ns.len() {
        Ok(seq![])
    } else {
        match eval(ns[k]) {
            Ok(r) => match eval_body(ns, k + 1) {
                Ok(rest) => Ok(r + rest),
                Err(e) => Err(e),
            },
            Err(e) => Err(e),
        }
    }
}

/// The first values of the results of `ns` from index `k` on, or the first error.
pub open spec fn first_values(ns: Seq<Node>, k: int) -> Result<Seq<i64>, EvalErr>
    decreases ns, ns.len() - k,
{
    if k < 0 || k >= ns.len() {
        Ok(seq![])
    } else {
        match eval(ns[k]) {
            Ok(r) => match first_values(ns, k + 1) {
                Ok(rest) => Ok(seq![first_or_zero(r)] + rest),
                Err(e) => Err(e),
            },
            Err(e) => Err(e),
        }
    }
}

/// `p` followed by what `r` holds, or the error of `r`.
pub open spec fn joined(p: Seq<i64>, r: Result<Seq<i64>, EvalErr>) -> Result<Seq<i64>, EvalErr> {
    match r {
        Ok(rest) => Ok(p + rest),
        Err(e) => Err(e),
    }
}

fn sum_values(vals: &Vec<i64>) -> (r: Option<i64>)
    ensures
        r == checked_sum(vals@),
{
    let mut acc: i64 = 0;
    let mut k: usize = 0;
    assert(vals@.subrange(0, 0) =~= seq![]);
    while k < vals.len()
        invariant
            k <= vals@.len(),
            checked_sum(vals@.subrange(0, k as int)) == Some(acc),
        decreases vals@.len() - k,
    {
        assert(vals@.subrange(0, k + 1).drop_last() =~= vals@.subrange(0, k as int));
        match acc.checked_add(vals[k]) {
            Some(t) => acc = t,
            None => {
                proof {
                    lemma_sum_stays_none(vals@, k + 1);
                }
                return None;
            },
        }
        k = k + 1;
    }
    assert(vals@.subrange(0, vals@.len() as int) =~= vals@);
    Some(acc)
}

proof fn lemma_sum_stays_none(vals: Seq<i64>, k: int)
    requires
        0 <= k <= vals.len(),
        checked_sum(vals.subrange(0, k)) is None,
    ensures
        checked_sum(vals) is None,
    decreases vals.len() - k,
{
    if k < vals.len() {
        assert(vals.subrange(0, k + 1).drop_last() =~= vals.subrange(0, k));
        lemma_sum_stays_none(vals, k + 1);
    } else {
        assert(vals.subrange(0, k) =~= vals);
    }
}

proof fn lemma_difference_stays_none(vals: Seq<i64>, k: int)
    requires
        1 <= k <= vals.len(),
        checked_difference(vals.subrange(0, k)) is None,
    ensures
        checked_difference(vals) is None,
    decreases vals.len() - k,
{
    if k < vals.len() {
        assert(vals.subrange(0, k + 1).drop_last() =~= vals.subrange(0, k));
        lemma_difference_stays_none(vals, k + 1);
    } else {
        assert(vals.subrange(0, k) =~= vals);
    }
}

fn difference_values(vals: &Vec<i64>) -> (r: Option<i64>)
    ensures
        r == checked_difference(vals@),
{
    if vals.len() == 0 {
        return Some(0);
    }
    let mut acc: i64 = vals[0];
    let mut k: usize = 1;
    assert(vals@.subrange(0, 1) =~= seq![vals@[0]]);
    while k < vals.len()
        invariant
            1 <= k <= vals@.len(),
            checked_difference(vals@.subrange(0, k as int)) == Some(acc),
        decreases vals@.len() - k,
    {
        assert(vals@.subrange(0, k + 1).drop_last() =~= vals@.subrange(0, k as int));
        match acc.checked_sub(vals[k]) {
            Some(t) => acc = t,
            None => {
                proof {
                    lemma_difference_stays_none(vals@, k + 1);
                }
                return None;
            },
        }
        k = k + 1;
    }
    assert(vals@.subrange(0, vals@.len() as int) =~= vals@);
    Some(acc)
}

fn described(prefix: &str, text: &String) -> (r: String)
    ensures
        r@ == prefix@ + text@ + ")"@,
{
    let mut d = String::from_str(prefix);
    d.append(text.as_str());
    d.append(")");
    d
}

/// Evaluates `node`: the results of a program's parts joined in order, or the
/// first error met.
pub fn execute(node: &ASTNode) -> (r: Result<Vec<i64>, EvalError>)
    ensures
        eval_result(r) == eval(node_model(*node)),
    decreases node,
{
    match node {
        ASTNode::Program(body) => {
            let ghost ns = nodes_model(body@);
            assert(node_model(*node) == Node::Program(ns));
            assert(eval(node_model(*node)) == eval_body(ns, 0));
            let mut res: Vec<i64> = Vec::new();
            let mut k: usize = 0;
            while k < body.len()
                invariant
                    ns == nodes_model(body@),
                    *node == ASTNode::Program(*body),
                    eval(node_model(*node)) == eval_body(ns, 0),
                    k <= body@.len(),
                    eval_body(ns, 0) == joined(res@, eval_body(ns, k as int)),
                decreases body@.len() - k,
            {
                assert(ns[k as int] == node_model(body@[k as int]));
                proof {
                    vstd::std_specs::vec::axiom_vec_index_decreases(*body, k as int);
                    assert(decreases_to!(*node => (*node)->Program_0));
                }
                let r = execute(&body[k]);
                match r {
                    Ok(mut vals) => {
                        let ghost before = res@;
                        let ghost got = vals@;
                        res.append(&mut vals);
                        proof {
                            if let Ok(rest) = eval_body(ns, k + 1) {
                                assert(before + (got + rest) =~= res@ + rest);
                            }
                        }
                    },
                    Err(e) => {
                        assert(eval_body(ns, k as int) == eval(ns[k as int]));
                        return Err(e);
                    },
                }
                k = k + 1;
            }
            assert(res@ + seq![] =~= res@);
            Ok(res)
        },
        ASTNode::NumberLiteral(v) => {
            let r = vec![*v];
            assert(r@ =~= seq![*v]);
            Ok(r)
        },
        ASTNode::EndOfInput => {
            let r: Vec<i64> = Vec::new();
            assert(r@ =~= seq![]);
            Ok(r)
        },
        ASTNode::CallExpression { name, params } => {
            let ghost ns = nodes_model(params@);
            assert(node_model(*node) == Node::Call(name@, ns));
            let mut vals: Vec<i64> = Vec::new();
            let mut k: usize = 0;
            while k < params.len()
                invariant
                    ns == nodes_model(params@),
                    *node == (ASTNode::CallExpression { name: *name, params: *params }),
                    node_model(*node) == Node::Call(name@, ns),
                    k <= params@.len(),
                    first_values(ns, 0) == joined(vals@, first_values(ns, k as int)),
                decreases params@.len() - k,
            {
                assert(ns[k as int] == node_model(params@[k as int]));
                proof {
                    vstd::std_specs::vec::axiom_vec_index_decreases(*params, k as int);
                    assert(decreases_to!(*node => (*node)->CallExpression_params));
                }
                let r = execute(&params[k]);
                match r {
                    Ok(got) => {
                        let v = if got.len() > 0 { got[0] } else { 0 };
                        let ghost before = vals@;
                        vals.push(v);
                        proof {
                            if let Ok(rest) = first_values(ns, k + 1) {
                                assert(before + (seq![v] + rest) =~= vals@ + rest);
                            }
                        }
                    },
                    Err(e) => {
                        assert(first_values(ns, k as int) == eval(ns[k as int]));
                        return Err(e);
                    },
                }
                k = k + 1;
            }
            assert(vals@ + seq![] =~= vals@);
            let outcome = if *name == String::from_str("add") {
                sum_values(&vals)
            } else if *name == String::from_str("subtract") {
                difference_values(&vals)
            } else {
                return Err(EvalError::UnsupportedOperation { name: name.clone() });
            };
            match outcome {
                Some(v) => {
                    let r = vec![v];
                    assert(r@ =~= seq![v]);
                    Ok(r)
                },
                None => Err(EvalError::Overflow),
            }
        },
        ASTNode::StringLiteral(s) => Err(
            EvalError::UnexpectedNode { description: described("StringLiteral(", s) },
        ),
        ASTNode::ErrorNode(m) => Err(
            EvalError::UnexpectedNode { description: described("ErrorNode(", m) },
        ),
    }
}

/// Whether `n` is, or has among its descendants, an error node.
pub open spec fn has_error(n: Node) -> bool
    decreases n,
{
    match n {
        Node::Error(_) => true,
        Node::Program(body) => any_error(body, 0),
        Node::Call(_, params) => any_error(params, 0),
        _ => false,
    }
}

/// Whether one of `ns` from index `k` on holds an error node.
pub open spec fn any_error(ns: Seq<Node>, k: int) -> bool
    decreases ns, ns.len() - k,
{
    if k < 0 || k >= ns.len() {
        false
    } else {
        has_error(ns[k]) || any_error(ns, k + 1)
    }
}

/// A tree that holds an error node anywhere never evaluates to a result.
pub proof fn lemma_error_node_fails(n: Node)
    requires
        has_error(n),
    ensures
        eval(n) is Err,
    decreases n,
{
    match n {
        Node::Program(body) => lemma_body_fails(body, 0),
        Node::Call(_, params) => lemma_first_values_fail(params, 0),
        _ => {},
    }
}

proof fn lemma_body_fails(ns: Seq<Node>, k: int)
    requires
        any_error(ns, k),
    ensures
        eval_body(ns, k) is Err,
    decreases ns, ns.len() - k,
{
    if has_error(ns[k]) {
        lemma_error_node_fails(ns[k]);
    } else {
        lemma_body_fails(ns, k + 1);
    }
}

proof fn lemma_first_values_fail(ns: Seq<Node>, k: int)
    requires
        any_error(ns, k),
    ensures
        first_values(ns, k) is Err,
    decreases ns, ns.len() - k,
{
    if has_error(ns[k]) {
        lemma_error_node_fails(ns[k]);
    } else {
        lemma_first_values_fail(ns, k + 1);
    }
}

} // verus!
