use sexpr_eval::ast::ASTNode;
use sexpr_eval::eval::{execute, EvalError};
use sexpr_eval::lexer::{tokenizer, LexError, Token};
use sexpr_eval::parser::parser;

fn run(source: &str) -> Result<Vec<i64>, EvalError> {
    execute(&parser(tokenizer(source).unwrap()))
}

fn num(v: i64) -> ASTNode {
    ASTNode::NumberLiteral(v)
}

fn call(name: &str, params: Vec<ASTNode>) -> ASTNode {
    ASTNode::CallExpression { name: name.to_string(), params }
}

#[test]
fn digits_lex_to_one_integer() {
    assert_eq!(tokenizer("12345").unwrap(), vec![Token::Integer(12345)]);
    assert_eq!(tokenizer("0").unwrap(), vec![Token::Integer(0)]);
    assert_eq!(tokenizer("007").unwrap(), vec![Token::Integer(7)]);
    assert_eq!(
        tokenizer("9223372036854775807").unwrap(),
        vec![Token::Integer(9223372036854775807)]
    );
}

#[test]
fn tokenize_simple_call() {
    assert_eq!(
        tokenizer("(add 1 2)").unwrap(),
        vec![
            Token::LeftParen,
            Token::Symbol("add".to_string()),
            Token::Integer(1),
            Token::Integer(2),
            Token::RightParen,
        ]
    );
}

#[test]
fn tokenize_unterminated_string() {
    let r = tokenizer("(add 24 \"String)");
    assert_eq!(
        r,
        Err(LexError::UnterminatedString { partial_content: "String)".to_string(), position: 16 })
    );
}

#[test]
fn tokenize_string_literal() {
    assert_eq!(
        tokenizer("\"a b\" x").unwrap(),
        vec![Token::String("a b".to_string()), Token::Symbol("x".to_string())]
    );
}

#[test]
fn tokenize_symbol_with_digits_and_whitespace() {
    assert_eq!(
        tokenizer(" abc12\t\n34 ").unwrap(),
        vec![Token::Symbol("abc12".to_string()), Token::Integer(34)]
    );
    assert_eq!(tokenizer("\t\n\r ").unwrap(), vec![]);
}

#[test]
fn tokenize_non_ascii_letters() {
    assert_eq!(tokenizer("é1").unwrap(), vec![Token::Symbol("é1".to_string())]);
}

#[test]
fn tokenize_symbol_stops_at_underscore() {
    assert_eq!(
        tokenizer("a_b"),
        Err(LexError::UnexpectedCharacter { character: '_', position: 2 })
    );
}

#[test]
fn tokenize_unexpected_character() {
    assert_eq!(
        tokenizer("(add 1 @)"),
        Err(LexError::UnexpectedCharacter { character: '@', position: 8 })
    );
}

#[test]
fn tokenize_number_too_large() {
    assert_eq!(
        tokenizer("(add 99999999999999999999)"),
        Err(LexError::InvalidNumber { text: "99999999999999999999".to_string(), position: 25 })
    );
    assert!(matches!(tokenizer("9223372036854775808"), Err(LexError::InvalidNumber { .. })));
}

#[test]
fn parse_nested_call() {
    let tree = parser(tokenizer("(add 24 3 (subtract 3 1 5))").unwrap());
    assert_eq!(
        tree,
        ASTNode::Program(vec![
            call("add", vec![num(24), num(3), call("subtract", vec![num(3), num(1), num(5)])]),
            ASTNode::EndOfInput,
        ])
    );
}

#[test]
fn execute_nested_call() {
    assert_eq!(run("(add 24 3 (subtract 3 1 5))"), Ok(vec![24]));
}

#[test]
fn execute_unknown_operation() {
    assert_eq!(
        run("(multiply 1 2)"),
        Err(EvalError::UnsupportedOperation { name: "multiply".to_string() })
    );
}

#[test]
fn rerunning_gives_same_results() {
    let source = "(add 1 (subtract 10 4)) 7 (add)";
    let first = tokenizer(source);
    let second = tokenizer(source);
    assert_eq!(first, second);
    let tree1 = parser(first.unwrap());
    let tree2 = parser(second.unwrap());
    assert_eq!(tree1, tree2);
    assert_eq!(execute(&tree1), execute(&tree2));
    assert_eq!(execute(&tree1), Ok(vec![7, 7, 0]));
}

#[test]
fn empty_input() {
    let tree = parser(tokenizer("").unwrap());
    assert_eq!(tree, ASTNode::Program(vec![ASTNode::EndOfInput]));
    assert_eq!(execute(&tree), Ok(vec![]));
}

#[test]
fn unbalanced_parenthesis() {
    let tree = parser(tokenizer("(add 1 2").unwrap());
    assert_eq!(
        tree,
        ASTNode::Program(vec![
            ASTNode::ErrorNode("Expected a ) at 4.".to_string()),
            ASTNode::EndOfInput,
        ])
    );
    assert!(matches!(execute(&tree), Err(EvalError::UnexpectedNode { .. })));
}

#[test]
fn missing_paren_position_has_two_digits() {
    let tree = parser(tokenizer("(add 1 2 3 4 5 6 7 8 9").unwrap());
    assert_eq!(
        tree,
        ASTNode::Program(vec![
            ASTNode::ErrorNode("Expected a ) at 11.".to_string()),
            ASTNode::EndOfInput,
        ])
    );
}

#[test]
fn missing_function_name() {
    let tree = parser(tokenizer("(1 2)").unwrap());
    assert_eq!(
        tree,
        ASTNode::Program(vec![
            ASTNode::ErrorNode("Expected a function name at 2.".to_string()),
            num(2),
            ASTNode::ErrorNode("Unexpected ) at 4".to_string()),
            ASTNode::EndOfInput,
        ])
    );
    assert_eq!(
        execute(&tree),
        Err(EvalError::UnexpectedNode {
            description: "ErrorNode(Expected a function name at 2.)".to_string()
        })
    );
}

#[test]
fn unexpected_tokens() {
    let tree = parser(tokenizer(") add").unwrap());
    assert_eq!(
        tree,
        ASTNode::Program(vec![
            ASTNode::ErrorNode("Unexpected ) at 1".to_string()),
            ASTNode::ErrorNode("Unexpected add at 2".to_string()),
            ASTNode::EndOfInput,
        ])
    );
}

#[test]
fn string_literal_is_not_evaluated() {
    assert_eq!(
        run("\"hi\""),
        Err(EvalError::UnexpectedNode { description: "StringLiteral(hi)".to_string() })
    );
}

#[test]
fn string_parameter_fails_before_dispatch() {
    assert_eq!(
        run("(multiply \"x\")"),
        Err(EvalError::UnexpectedNode { description: "StringLiteral(x)".to_string() })
    );
}

#[test]
fn empty_calls_give_zero() {
    assert_eq!(run("(add)"), Ok(vec![0]));
    assert_eq!(run("(subtract)"), Ok(vec![0]));
    assert_eq!(run("(subtract 5)"), Ok(vec![5]));
}

#[test]
fn empty_result_counts_as_zero() {
    let tree = call("add", vec![ASTNode::EndOfInput, num(5)]);
    assert_eq!(execute(&tree), Ok(vec![5]));
    let tree = call("subtract", vec![ASTNode::EndOfInput, num(5)]);
    assert_eq!(execute(&tree), Ok(vec![-5]));
}

#[test]
fn only_first_value_of_a_parameter_counts() {
    let inner = ASTNode::Program(vec![num(4), num(100), ASTNode::EndOfInput]);
    assert_eq!(execute(&call("add", vec![inner, num(1)])), Ok(vec![5]));
}

#[test]
fn program_results_are_joined_in_order() {
    assert_eq!(run("1 (add 2 3) (subtract 1 4)"), Ok(vec![1, 5, -3]));
}

#[test]
fn arithmetic_overflow_is_reported() {
    assert_eq!(run("(add 9223372036854775807 1)"), Err(EvalError::Overflow));
    assert_eq!(run("(subtract 0 9223372036854775807 2)"), Err(EvalError::Overflow));
    assert_eq!(run("(subtract 0 9223372036854775807 1)"), Ok(vec![i64::MIN]));
}

#[test]
fn first_error_stops_evaluation() {
    assert_eq!(
        run("(add 1 2) (divide 4 2) \"s\""),
        Err(EvalError::UnsupportedOperation { name: "divide".to_string() })
    );
}

#[test]
fn eof_check() {
    assert!(ASTNode::EndOfInput.is_eof());
    assert!(!num(1).is_eof());
}
