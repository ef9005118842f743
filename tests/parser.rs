use rcc1::parse::{program, Node, NodeKind, ParseError};
use rcc1::token::tokenize;

fn parse(src: &str) -> Result<Vec<Node>, ParseError> {
    program(&tokenize(src.to_string()).unwrap())
}

fn num(v: i32) -> Node {
    Node::Number { val: v }
}

fn var(offset: i32) -> Node {
    Node::LVar { offset }
}

fn bin(kind: NodeKind, lhs: Node, rhs: Node) -> Node {
    Node::Operator { kind, lhs: Box::new(lhs), rhs: Box::new(rhs) }
}

#[test]
fn multiplication_binds_tighter() {
    let code = parse("1+2*3;").unwrap();
    assert_eq!(code, vec![bin(NodeKind::NdAdd, num(1), bin(NodeKind::NdMul, num(2), num(3)))]);
}

#[test]
fn parentheses_group() {
    let code = parse("(1+2)*3;").unwrap();
    assert_eq!(code, vec![bin(NodeKind::NdMul, bin(NodeKind::NdAdd, num(1), num(2)), num(3))]);
}

#[test]
fn subtraction_is_left_associative() {
    let code = parse("10-3-2;").unwrap();
    assert_eq!(code, vec![bin(NodeKind::NdSub, bin(NodeKind::NdSub, num(10), num(3)), num(2))]);
}

#[test]
fn relational_binds_tighter_than_equality() {
    let code = parse("1<2==1;").unwrap();
    assert_eq!(code, vec![bin(NodeKind::NdEq, bin(NodeKind::NdLt, num(1), num(2)), num(1))]);
}

#[test]
fn greater_is_lowered_with_swapped_operands() {
    let code = parse("1>2; 3>=4;").unwrap();
    assert_eq!(
        code,
        vec![bin(NodeKind::NdLt, num(2), num(1)), bin(NodeKind::NdLe, num(4), num(3))]
    );
}

#[test]
fn unary_minus_is_zero_minus() {
    let code = parse("-5; +6;").unwrap();
    assert_eq!(code, vec![bin(NodeKind::NdSub, num(0), num(5)), num(6)]);
}

#[test]
fn one_offset_per_variable() {
    let code = parse("a=3;a=a+1;a;").unwrap();
    assert_eq!(
        code,
        vec![
            bin(NodeKind::NdAssign, var(8), num(3)),
            bin(NodeKind::NdAssign, var(8), bin(NodeKind::NdAdd, var(8), num(1))),
            var(8),
        ]
    );
}

#[test]
fn offsets_in_order_of_first_use() {
    let code = parse("b; a; b; c;").unwrap();
    assert_eq!(code, vec![var(8), var(16), var(8), var(24)]);
}

#[test]
fn assignment_is_right_associative() {
    let code = parse("a=b=5;").unwrap();
    assert_eq!(
        code,
        vec![bin(NodeKind::NdAssign, var(8), bin(NodeKind::NdAssign, var(16), num(5)))]
    );
}

#[test]
fn if_else_and_return() {
    let code = parse("if(1==0) return 5; else return 3;").unwrap();
    assert_eq!(
        code,
        vec![Node::If {
            cond: Box::new(bin(NodeKind::NdEq, num(1), num(0))),
            i_st: Box::new(Node::Return(Box::new(num(5)))),
            e_st: Box::new(Node::Return(Box::new(num(3)))),
        }]
    );
}

#[test]
fn if_without_else_gets_placeholder() {
    let code = parse("if(a) b;").unwrap();
    assert_eq!(
        code,
        vec![Node::If { cond: Box::new(var(8)), i_st: Box::new(var(16)), e_st: Box::new(num(0)) }]
    );
}

#[test]
fn blocks_nest() {
    let code = parse("{ 1; { } 2; }").unwrap();
    assert_eq!(code, vec![Node::Block(vec![num(1), Node::Block(vec![]), num(2)])]);
}

#[test]
fn empty_program() {
    assert_eq!(parse("").unwrap(), vec![]);
}

#[test]
fn missing_semicolon() {
    assert_eq!(parse("1+2"), Err(ParseError::UnexpectedEndOfInput));
    assert_eq!(parse("1 2;"), Err(ParseError::UnexpectedToken { pos: 1 }));
}

#[test]
fn unclosed_parenthesis() {
    assert_eq!(parse("(1+2;"), Err(ParseError::UnmatchedDelimiter { pos: 0 }));
    assert_eq!(parse("1*(2"), Err(ParseError::UnmatchedDelimiter { pos: 2 }));
}

#[test]
fn unclosed_brace() {
    assert_eq!(parse("{ 1;"), Err(ParseError::UnmatchedDelimiter { pos: 0 }));
}

#[test]
fn unclosed_if_condition() {
    assert_eq!(parse("if(1 2;"), Err(ParseError::UnmatchedDelimiter { pos: 1 }));
}

#[test]
fn token_that_cannot_start_an_operand() {
    assert_eq!(parse("1 + ;"), Err(ParseError::UnexpectedToken { pos: 2 }));
    assert_eq!(parse("}"), Err(ParseError::UnexpectedToken { pos: 0 }));
    assert_eq!(parse("else 1;"), Err(ParseError::UnexpectedToken { pos: 0 }));
    assert_eq!(parse("if 1;"), Err(ParseError::UnexpectedToken { pos: 1 }));
}

#[test]
fn operand_missing_at_end() {
    assert_eq!(parse("1 +"), Err(ParseError::UnexpectedEndOfInput));
    assert_eq!(parse("return"), Err(ParseError::UnexpectedEndOfInput));
}

#[test]
fn assignment_target_must_be_a_variable() {
    assert_eq!(parse("1=2;"), Err(ParseError::UnexpectedToken { pos: 1 }));
    assert_eq!(parse("a+b=2;"), Err(ParseError::UnexpectedToken { pos: 3 }));
}
