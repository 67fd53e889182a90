use vstd::prelude::*;

verus! {

broadcast use {
    vstd::std_specs::vec::axiom_vec_index_decreases,
    vstd::std_specs::vec::axiom_vec_decreases_to_view,
    vstd::seq::axiom_seq_index_decreases,
};

/// A node of the syntax tree. `EndOfInput` closes a program's body; an
/// `ErrorNode` holds the message of a parse failure at the place it happened.
#[derive(Debug, PartialEq, Eq)]
pub enum ASTNode {
    Program(Vec<ASTNode>),
    NumberLiteral(i64),
    StringLiteral(String),
    CallExpression { name: String, params: Vec<ASTNode> },
    EndOfInput,
    ErrorNode(String),
}

/// The mathematical value of an `ASTNode`.
pub enum Node {
    Program(Seq<Node>),
    Number(i64),
    Text(Seq<char>),
    Call(Seq<char>, Seq<Node>),
    End,
    Error(Seq<char>),
}

/// The value of an `ASTNode`, with texts as character sequences.
pub open spec fn node_model(n: ASTNode) -> Node
    decreases n,
{
    match n {
        ASTNode::Program(body) => Node::Program(nodes_model(body@)),
        ASTNode::NumberLiteral(v) => Node::Number(v),
        ASTNode::StringLiteral(s) => Node::Text(s@),
        ASTNode::CallExpression { name, params } => Node::Call(name@, nodes_model(params@)),
        ASTNode::EndOfInput => Node::End,
        ASTNode::ErrorNode(m) => Node::Error(m@),
    }
}

/// The values of a sequence of nodes.
pub open spec fn nodes_model(v: Seq<ASTNode>) -> Seq<Node>
    decreases v,
{
    Seq::new(v.len(), |i: int| if 0 <= i < v.len() { node_model(v[i]) } else { Node::End })
}

impl ASTNode {
    /// Whether this node marks the end of the input.
    pub fn is_eof(&self) -> (r: bool)
        ensures
            r == (*self is EndOfInput),
    {
        match self {
            ASTNode::EndOfInput => true,
            _ => false,
        }
    }
}

} // verus!
