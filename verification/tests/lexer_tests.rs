use interprete_rs::blisp::lexer::{tokenize, NumLiteral, ReservedIdent, Token, Type};
use interprete_rs::error::InterpreTestResult;

#[test]
fn parentheses() -> InterpreTestResult {
    let (input1, output1) = (
        // Without the space this is interpreted as a unit literal
        "(( ))".chars().collect(),
        [
            Token::LParen,
            Token::LParen,
            Token::RParen,
            Token::RParen,
            Token::EOF,
        ],
    );
    let (input2, output2) = (
        "((( ))".chars().collect(),
        [
            Token::LParen,
            Token::LParen,
            Token::LParen,
            Token::RParen,
            Token::RParen,
            Token::EOF,
        ],
    );

    assert_eq!(tokenize(input1)?, output1);
    assert_eq!(tokenize(input2)?, output2);

    Ok(())
}

#[test]
fn brackets() -> InterpreTestResult {
    let (input1, output1) = (
        "([])".chars().collect(),
        [
            Token::LParen,
            Token::LBrack,
            Token::RBrack,
            Token::RParen,
            Token::EOF,
        ],
    );
    let (input2, output2) = (
        "([[])".chars().collect(),
        [
            Token::LParen,
            Token::LBrack,
            Token::LBrack,
            Token::RBrack,
            Token::RParen,
            Token::EOF,
        ],
    );

    assert_eq!(tokenize(input1)?, output1);
    assert_eq!(tokenize(input2)?, output2);

    Ok(())
}

#[test]
fn num_literals() -> InterpreTestResult {
    let (input1, output1) = (
        "(1243)".chars().collect(),
        [
            Token::LParen,
            Token::NumLiteral(NumLiteral::new_int(1243, false)),
            Token::RParen,
            Token::EOF,
        ],
    );
    let (input2, output2) = (
        "(-124.3)".chars().collect(),
        [
            Token::LParen,
            Token::NumLiteral(NumLiteral::new_float(124, 3, true)),
            Token::RParen,
            Token::EOF,
        ],
    );
    let (input3, output3) = (
        "(-124f)".chars().collect(),
        [
            Token::LParen,
            Token::NumLiteral(NumLiteral::new_int_with_suffix(124, true, 'f').unwrap()),
            Token::RParen,
            Token::EOF,
        ],
    );

    assert_eq!(tokenize(input1)?, output1);
    assert_eq!(tokenize(input2)?, output2);
    assert_eq!(tokenize(input3)?, output3);

    Ok(())
}

#[test]
fn math_test() -> InterpreTestResult {
    let (input1, output1) = (
        // The lexer does no syntax or type analysis so this is fine
        "(+  -15.23f 1243u )".chars().collect(),
        [
            Token::LParen,
            Token::Reserved(ReservedIdent::Add),
            Token::NumLiteral(NumLiteral::new_float_with_suffix(15, 23, true, 'f').unwrap()),
            Token::NumLiteral(NumLiteral::new_int_with_suffix(1243, false, 'u').unwrap()),
            Token::RParen,
            Token::EOF,
        ],
    );
    let (input2, output2) = (
        "(- -124c (/ 0.3 123u))".chars().collect(),
        [
            Token::LParen,
            Token::Reserved(ReservedIdent::Sub),
            Token::NumLiteral(NumLiteral::new_int_with_suffix(124, true, 'c').unwrap()),
            Token::LParen,
            Token::Reserved(ReservedIdent::Div),
            Token::NumLiteral(NumLiteral::new_float(0, 3, false)),
            Token::NumLiteral(NumLiteral::new_int_with_suffix(123, false, 'u').unwrap()),
            Token::RParen,
            Token::RParen,
            Token::EOF,
        ],
    );
    let (input3, output3) = (
        "(* (/ 2 9) -124f)".chars().collect(),
        [
            Token::LParen,
            Token::Reserved(ReservedIdent::Mul),
            Token::LParen,
            Token::Reserved(ReservedIdent::Div),
            Token::NumLiteral(NumLiteral::new_int(2, false)),
            Token::NumLiteral(NumLiteral::new_int(9, false)),
            Token::RParen,
            Token::NumLiteral(NumLiteral::new_int_with_suffix(124, true, 'f').unwrap()),
            Token::RParen,
            Token::EOF,
        ],
    );

    assert_eq!(tokenize(input1)?, output1);
    assert_eq!(tokenize(input2)?, output2);
    assert_eq!(tokenize(input3)?, output3);

    Ok(())
}

#[test]
fn char_literal_test() -> InterpreTestResult {
    let (input1, output1) = (
        "(['a' 'n' '?'] 'Z' '0')".chars().collect(),
        [
            Token::LParen,
            Token::LBrack,
            Token::CharLiteral(b'a'),
            Token::CharLiteral(b'n'),
            Token::CharLiteral(b'?'),
            Token::RBrack,
            Token::CharLiteral(b'Z'),
            Token::CharLiteral(b'0'),
            Token::RParen,
            Token::EOF,
        ],
    );
    let (input2, output2) = (
        // ''' is valid because char literals are read without escape handling
        "(- (+ 'a' 1c) '`' ''')".chars().collect(),
        [
            Token::LParen,
            Token::Reserved(ReservedIdent::Sub),
            Token::LParen,
            Token::Reserved(ReservedIdent::Add),
            Token::CharLiteral(b'a'),
            Token::NumLiteral(NumLiteral::new_int_with_suffix(1, false, 'c').unwrap()),
            Token::RParen,
            Token::CharLiteral(b'`'),
            Token::CharLiteral(b'\''),
            Token::RParen,
            Token::EOF,
        ],
    );

    assert_eq!(tokenize(input1)?, output1);
    assert_eq!(tokenize(input2)?, output2);

    Ok(())
}

#[test]
fn string_literal_test() -> InterpreTestResult {
    let (input1, output1) = (
        "([\"ABC\" \"TESTSTR\"] 'Z' \"FNIDENSIEN\")".chars().collect(),
        [
            Token::LParen,
            Token::LBrack,
            Token::StringLiteral("ABC".to_string()),
            Token::StringLiteral("TESTSTR".to_string()),
            Token::RBrack,
            Token::CharLiteral(b'Z'),
            Token::StringLiteral("FNIDENSIEN".to_string()),
            Token::RParen,
            Token::EOF,
        ],
    );
    let (input2, output2) = (
        "(- (+ \"AIENdkfqw\" 1c) '`' \"AIENdenqiekS81\" \"))\\n\")".chars().collect(),
        [
            Token::LParen,
            Token::Reserved(ReservedIdent::Sub),
            Token::LParen,
            Token::Reserved(ReservedIdent::Add),
            Token::StringLiteral("AIENdkfqw".to_string()),
            Token::NumLiteral(NumLiteral::new_int_with_suffix(1, false, 'c').unwrap()),
            Token::RParen,
            Token::CharLiteral(b'`'),
            Token::StringLiteral("AIENdenqiekS81".to_string()),
            // Written this way to make sure the escaping of the `\` is working
            Token::StringLiteral(String::from_iter([')', ')', '\\', 'n'])),
            Token::RParen,
            Token::EOF,
        ],
    );

    assert_eq!(tokenize(input1)?, output1);
    assert_eq!(tokenize(input2)?, output2);

    Ok(())
}

#[test]
fn type_ident_test() -> InterpreTestResult {
    let (input1, output1) = (
        "(int uint float char list<char> list<list<uint>>)".chars().collect(),
        [
            Token::LParen,
            Token::Type(Type::Int),
            Token::Type(Type::UInt),
            Token::Type(Type::Float),
            Token::Type(Type::Char),
            Token::Type(Type::List(Box::new(Type::Char))),
            Token::Type(Type::List(Box::new(Type::List(Box::new(Type::UInt))))),
            Token::RParen,
            Token::EOF,
        ],
    );

    assert_eq!(tokenize(input1)?, output1);

    Ok(())
}

#[test]
fn reserved_ident_test() -> InterpreTestResult {
    let (input1, output1) = (
        "(add + sub - div / mul * write read if while eq neq leq geq lt gt and or set init def concat prepend take split eval tostring)".chars().collect(),
        [
            Token::LParen,
            Token::Reserved(ReservedIdent::Add),
            Token::Reserved(ReservedIdent::Add),
            Token::Reserved(ReservedIdent::Sub),
            Token::Reserved(ReservedIdent::Sub),
            Token::Reserved(ReservedIdent::Div),
            Token::Reserved(ReservedIdent::Div),
            Token::Reserved(ReservedIdent::Mul),
            Token::Reserved(ReservedIdent::Mul),
            Token::Reserved(ReservedIdent::Write),
            Token::Reserved(ReservedIdent::Read),
            Token::Reserved(ReservedIdent::If),
            Token::Reserved(ReservedIdent::While),
            Token::Reserved(ReservedIdent::Eq),
            Token::Reserved(ReservedIdent::Neq),
            Token::Reserved(ReservedIdent::Leq),
            Token::Reserved(ReservedIdent::Geq),
            Token::Reserved(ReservedIdent::Lt),
            Token::Reserved(ReservedIdent::Gt),
            Token::Reserved(ReservedIdent::And),
            Token::Reserved(ReservedIdent::Or),
            Token::Reserved(ReservedIdent::SetVar),
            Token::Reserved(ReservedIdent::Init),
            Token::Reserved(ReservedIdent::Def),
            Token::Reserved(ReservedIdent::Concat),
            Token::Reserved(ReservedIdent::Prepend),
            Token::Reserved(ReservedIdent::Take),
            Token::Reserved(ReservedIdent::Split),
            Token::Reserved(ReservedIdent::Eval),
            Token::Reserved(ReservedIdent::ToString),
            Token::RParen,
            Token::EOF,
        ],
    );

    assert_eq!(tokenize(input1)?, output1);

    Ok(())
}

#[test]
fn variable_ident_test() -> InterpreTestResult {
    let (input1, output1) = (
        "(a3t int ade3 inavd iaerkds9 iaernds[)".chars().collect(),
        [
            Token::LParen,
            Token::Ident("a3t".to_string()),
            Token::Type(Type::Int),
            Token::Ident("ade3".to_string()),
            Token::Ident("inavd".to_string()),
            Token::Ident("iaerkds9".to_string()),
            Token::Ident("iaernds".to_string()),
            Token::LBrack,
            Token::RParen,
            Token::EOF,
        ],
    );

    assert_eq!(tokenize(input1)?, output1);

    Ok(())
}

#[test]
fn operator_alias_round_trip() -> InterpreTestResult {
    // Both surface forms of each operator tokenize identically.
    assert_eq!(
        tokenize("(+ 1.5 1)".chars().collect())?,
        tokenize("(add 1.5 1)".chars().collect())?
    );
    assert_eq!(
        tokenize("(* 2 3)".chars().collect())?,
        tokenize("(mul 2 3)".chars().collect())?
    );
    assert_eq!(
        tokenize("(/ 2 3)".chars().collect())?,
        tokenize("(div 2 3)".chars().collect())?
    );
    assert_eq!(
        tokenize("(- 2 3)".chars().collect())?,
        tokenize("(sub 2 3)".chars().collect())?
    );
    Ok(())
}

#[test]
fn lexer_failure_tests() {
    // Unterminated string literal.
    assert!(tokenize("(\"arst)".chars().collect()).is_err());
    // Char literal without its closing quote where expected.
    assert!(tokenize("'12'".chars().collect()).is_err());
    // A character outside the language.
    let err = tokenize("(#)".chars().collect()).unwrap_err();
    assert!(err.message().contains("Haven't implemented the char #"));
    // Non-ASCII input is filtered out before scanning.
    assert_eq!(
        tokenize("(1\u{e9}2)".chars().collect()).unwrap(),
        tokenize("(12)".chars().collect()).unwrap()
    );
}
