use rcc1::token::{tokenize, tokenize_with_positions, LexError, OperatorKind, Token};

fn op(kind: OperatorKind) -> Token {
    Token::Operator { kind }
}

fn ident(name: &str) -> Token {
    Token::Ident { name: name.to_string() }
}

#[test]
fn lexes_arithmetic() {
    let toks = tokenize("1+2*3".to_string()).unwrap();
    assert_eq!(
        toks,
        vec![
            Token::Number { val: 1 },
            op(OperatorKind::TkAdd),
            Token::Number { val: 2 },
            op(OperatorKind::TkMul),
            Token::Number { val: 3 },
        ]
    );
}

#[test]
fn lexes_every_operator() {
    let toks = tokenize("+-*/(){}< > =;".to_string()).unwrap();
    assert_eq!(
        toks,
        vec![
            op(OperatorKind::TkAdd),
            op(OperatorKind::TkSub),
            op(OperatorKind::TkMul),
            op(OperatorKind::TkDiv),
            op(OperatorKind::TkPrSt),
            op(OperatorKind::TkPrEd),
            op(OperatorKind::TkBrSt),
            op(OperatorKind::TkBrEd),
            op(OperatorKind::TkLt),
            op(OperatorKind::TkGt),
            op(OperatorKind::TkAssign),
            op(OperatorKind::TkExprEnd),
        ]
    );
}

#[test]
fn two_character_operators_win() {
    let toks = tokenize("a==b!=c<=d>=e".to_string()).unwrap();
    assert_eq!(
        toks,
        vec![
            ident("a"),
            op(OperatorKind::TkEq),
            ident("b"),
            op(OperatorKind::TkNEq),
            ident("c"),
            op(OperatorKind::TkLe),
            ident("d"),
            op(OperatorKind::TkGe),
            ident("e"),
        ]
    );
}

#[test]
fn three_equals_is_eq_then_assign() {
    let toks = tokenize("===".to_string()).unwrap();
    assert_eq!(toks, vec![op(OperatorKind::TkEq), op(OperatorKind::TkAssign)]);
}

#[test]
fn keywords_and_identifiers() {
    let toks = tokenize("if(x) return y; else returnx;".to_string()).unwrap();
    assert_eq!(
        toks,
        vec![
            Token::If,
            op(OperatorKind::TkPrSt),
            ident("x"),
            op(OperatorKind::TkPrEd),
            Token::Return,
            ident("y"),
            op(OperatorKind::TkExprEnd),
            Token::Else,
            ident("returnx"),
            op(OperatorKind::TkExprEnd),
        ]
    );
}

#[test]
fn keyword_boundary_needs_no_fixed_separator() {
    let toks = tokenize("if (a) return(1);".to_string()).unwrap();
    assert_eq!(toks[0], Token::If);
    assert_eq!(toks[1], op(OperatorKind::TkPrSt));
    assert_eq!(toks[4], Token::Return);
    assert_eq!(toks[5], op(OperatorKind::TkPrSt));
}

#[test]
fn while_and_for_stay_identifiers() {
    let toks = tokenize("while for".to_string()).unwrap();
    assert_eq!(toks, vec![ident("while"), ident("for")]);
}

#[test]
fn whitespace_is_skipped() {
    let toks = tokenize(" \t12 \n ab\n".to_string()).unwrap();
    assert_eq!(toks, vec![Token::Number { val: 12 }, ident("ab")]);
}

#[test]
fn empty_and_blank_input() {
    assert_eq!(tokenize("".to_string()).unwrap(), vec![]);
    assert_eq!(tokenize("   \n".to_string()).unwrap(), vec![]);
}

#[test]
fn digits_then_letters_split() {
    let toks = tokenize("12ab34".to_string()).unwrap();
    assert_eq!(toks, vec![Token::Number { val: 12 }, ident("ab"), Token::Number { val: 34 }]);
}

#[test]
fn largest_literal_fits() {
    let toks = tokenize("2147483647".to_string()).unwrap();
    assert_eq!(toks, vec![Token::Number { val: 2147483647 }]);
}

#[test]
fn literal_overflow_is_an_error() {
    assert_eq!(
        tokenize("1+2147483648".to_string()),
        Err(LexError::NumericLiteralOverflow { pos: 2 })
    );
    assert_eq!(
        tokenize("  99999999999999999999999".to_string()),
        Err(LexError::NumericLiteralOverflow { pos: 2 })
    );
}

#[test]
fn unrecognized_character_is_an_error() {
    assert_eq!(tokenize("1 + $".to_string()), Err(LexError::UnrecognizedCharacter { pos: 4 }));
    assert_eq!(tokenize("A".to_string()), Err(LexError::UnrecognizedCharacter { pos: 0 }));
    assert_eq!(tokenize("a_b".to_string()), Err(LexError::UnrecognizedCharacter { pos: 1 }));
    assert_eq!(tokenize("!".to_string()), Err(LexError::UnrecognizedCharacter { pos: 0 }));
}

#[test]
fn positions_are_character_positions() {
    let (toks, pos) = tokenize_with_positions(" ab = 10;").unwrap();
    assert_eq!(toks.len(), 4);
    assert_eq!(pos, vec![1, 4, 6, 8]);
}
