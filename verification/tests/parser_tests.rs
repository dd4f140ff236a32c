use interprete_rs::blisp::lexer::{tokenize, NumLiteral, ReservedIdent, Token, Type};
use interprete_rs::blisp::parser::{
    func_call_node, is_terminal_val_token, is_val_start_token, list_node, parse_prog, prog_node,
    val_node, val_node_from, Node, Rule, RuleNodeData,
};
use interprete_rs::error::InterpreTestResult;

#[test]
fn val_pattern_test() {
    let valid_toks = [
        Token::NumLiteral(NumLiteral::new_float(12, 4, false)),
        Token::CharLiteral(b'a'),
        Token::UnitLiteral,
        Token::StringLiteral("AB".to_string()),
        Token::Ident("identifier".to_string()),
        Token::Type(Type::List(Box::new(Type::UInt))),
        Token::LParen,
        Token::LBrack,
    ];
    let terminal_toks = [
        Token::NumLiteral(NumLiteral::new_float(12, 4, false)),
        Token::CharLiteral(b'a'),
        Token::UnitLiteral,
        Token::StringLiteral("AB".to_string()),
        Token::Ident("identifier".to_string()),
        Token::Type(Type::List(Box::new(Type::UInt))),
    ];
    let invalid_toks = [
        Token::RParen,
        Token::RBrack,
        Token::EOF,
        Token::Reserved(ReservedIdent::Add),
    ];

    for tok in valid_toks.iter() {
        assert!(is_val_start_token(tok));
    }

    for tok in terminal_toks.iter() {
        assert!(is_terminal_val_token(tok));
    }

    for tok in invalid_toks.iter() {
        assert!(!is_val_start_token(tok));
    }
}

#[test]
fn rule_node_helper_test() -> InterpreTestResult {
    let node1 = Node::new_rule_node(
        Rule::List,
        vec![
            Node::Leaf(Token::UnitLiteral),
            Node::Leaf(Token::CharLiteral(b'a')),
        ],
    );
    let node2 = Node::new_rule_node(
        Rule::Args,
        vec![
            Node::Leaf(Token::StringLiteral("TESTSTR".to_string())),
            node1.clone(),
        ],
    );

    let exp1 = Node::Rule(RuleNodeData::new(
        Rule::List,
        vec![
            Node::Leaf(Token::UnitLiteral),
            Node::Leaf(Token::CharLiteral(b'a')),
        ],
    ));
    let exp2 = Node::Rule(RuleNodeData::new(
        Rule::Args,
        vec![
            Node::Leaf(Token::StringLiteral("TESTSTR".to_string())),
            Node::Rule(RuleNodeData::new(
                Rule::List,
                vec![
                    Node::Leaf(Token::UnitLiteral),
                    Node::Leaf(Token::CharLiteral(b'a')),
                ],
            )),
        ],
    ));

    assert_eq!(node1, exp1);
    assert_eq!(node2, exp2);

    Ok(())
}

// Expected from expression `([12.4 'c' "ABCD"])`
fn get_test_list_node() -> Node {
    Node::Rule(RuleNodeData::new(
        Rule::List,
        vec![Node::Rule(RuleNodeData::new(
            Rule::ListBody,
            vec![
                Node::new_rule_node(
                    Rule::Val,
                    vec![Node::Leaf(Token::NumLiteral(NumLiteral::new_float(12, 4, false)))],
                ),
                Node::Rule(RuleNodeData::new(
                    Rule::ListBody,
                    vec![
                        Node::new_rule_node(Rule::Val, vec![Node::Leaf(Token::CharLiteral(b'c'))]),
                        Node::Rule(RuleNodeData::new(
                            Rule::ListBody,
                            vec![Node::new_rule_node(
                                Rule::Val,
                                vec![Node::Leaf(Token::StringLiteral("ABCD".to_string()))],
                            )],
                        )),
                    ],
                )),
            ],
        ))],
    ))
}

// Expected from expression `(+ 13.5 'd' [12.4 'c' "ABCD"])`
fn get_test_func_call_node() -> Node {
    Node::Rule(RuleNodeData::new(
        Rule::FuncCall,
        vec![
            Node::Leaf(Token::Reserved(ReservedIdent::Add)),
            Node::Rule(RuleNodeData::new(
                Rule::Args,
                vec![
                    Node::new_rule_node(
                        Rule::Val,
                        vec![Node::Leaf(Token::NumLiteral(NumLiteral::new_float(13, 5, false)))],
                    ),
                    Node::Rule(RuleNodeData::new(
                        Rule::Args,
                        vec![
                            Node::new_rule_node(
                                Rule::Val,
                                vec![Node::Leaf(Token::CharLiteral(b'd'))],
                            ),
                            Node::Rule(RuleNodeData::new(
                                Rule::Args,
                                vec![Node::new_rule_node(
                                    Rule::Val,
                                    vec![get_test_list_node()],
                                )],
                            )),
                        ],
                    )),
                ],
            )),
        ],
    ))
}

fn wrap_prog(inner: Node) -> Node {
    Node::Rule(RuleNodeData::new(
        Rule::Prog,
        vec![Node::Rule(RuleNodeData::new(
            Rule::Expr,
            vec![Node::Rule(RuleNodeData::new(Rule::ExprBody, vec![inner]))],
        ))],
    ))
}

#[test]
fn validate_test_nodes() -> InterpreTestResult {
    let tokens1 = tokenize("([12.4 'c' \"ABCD\"])".chars().collect())?;
    let tokens2 = tokenize("(+ 13.5 'd' [12.4 'c' \"ABCD\"])".chars().collect())?;

    let node1 = parse_prog(&tokens1)?;
    let node2 = parse_prog(&tokens2)?;

    let exp1 = wrap_prog(Node::Rule(RuleNodeData::new(
        Rule::Val,
        vec![get_test_list_node()],
    )));
    let exp2 = wrap_prog(get_test_func_call_node());

    assert_eq!(node1, (exp1, 7));
    assert_eq!(node2, (exp2, 10));

    Ok(())
}

#[test]
fn val_node_helper_test() -> InterpreTestResult {
    let node1 = val_node(Token::CharLiteral(b'a'));
    let node2 = val_node(Token::StringLiteral("ABC".to_string()));
    let node3 = val_node_from(get_test_list_node());

    let exp1 = Node::new_rule_node(Rule::Val, vec![Node::Leaf(Token::CharLiteral(b'a'))]);
    let exp2 = Node::new_rule_node(
        Rule::Val,
        vec![Node::Leaf(Token::StringLiteral("ABC".to_string()))],
    );
    let exp3 = Node::new_rule_node(Rule::Val, vec![get_test_list_node()]);

    assert_eq!(node1, exp1);
    assert_eq!(node2, exp2);
    assert_eq!(node3, exp3);

    Ok(())
}

#[test]
fn list_node_helper_test() -> InterpreTestResult {
    let node = list_node(vec![
        val_node(Token::NumLiteral(NumLiteral::new_float(12, 4, false))),
        val_node(Token::CharLiteral(b'c')),
        val_node(Token::StringLiteral("ABCD".to_string())),
    ])?;

    let exp = get_test_list_node();

    assert_eq!(node, exp);

    Ok(())
}

#[test]
fn func_call_node_helper_test() -> InterpreTestResult {
    let node = func_call_node(
        ReservedIdent::Add,
        vec![
            val_node(Token::NumLiteral(NumLiteral::new_float(13, 5, false))),
            val_node(Token::CharLiteral(b'd')),
            val_node_from(get_test_list_node()),
        ],
    )?;

    let exp = get_test_func_call_node();

    assert_eq!(node, exp);

    Ok(())
}

#[test]
fn prog_node_helper_test() -> InterpreTestResult {
    let node1 = prog_node(val_node(Token::UnitLiteral))?;
    let node2 = prog_node(val_node(Token::StringLiteral("ABC".to_string())))?;
    let node3 = prog_node(func_call_node(
        ReservedIdent::Add,
        vec![
            val_node(Token::NumLiteral(NumLiteral::new_float(13, 5, false))),
            val_node(Token::CharLiteral(b'd')),
            val_node_from(get_test_list_node()),
        ],
    )?)?;

    let exp1 = wrap_prog(Node::new_rule_node(
        Rule::Val,
        vec![Node::Leaf(Token::UnitLiteral)],
    ));
    let exp2 = wrap_prog(Node::new_rule_node(
        Rule::Val,
        vec![Node::Leaf(Token::StringLiteral("ABC".to_string()))],
    ));
    let exp3 = wrap_prog(get_test_func_call_node());

    assert_eq!(node1, exp1);
    assert_eq!(node2, exp2);
    assert_eq!(node3, exp3);

    Ok(())
}

#[test]
fn parse_literal_val_test() -> InterpreTestResult {
    let cases: [(&str, Token, usize); 6] = [
        (
            "(-1.24f)",
            Token::NumLiteral(NumLiteral::new_float_with_suffix(1, 24, true, 'f').unwrap()),
            3,
        ),
        ("(arstien)", Token::Ident("arstien".to_string()), 3),
        ("(uint)", Token::Type(Type::UInt), 3),
        ("('a')", Token::CharLiteral(b'a'), 3),
        ("(\"teststr\")", Token::StringLiteral("teststr".to_string()), 3),
        ("(())", Token::UnitLiteral, 3),
    ];

    for (input, tok, count) in cases.into_iter() {
        let tokens = tokenize(input.chars().collect())?;
        let exp = wrap_prog(Node::new_rule_node(Rule::Val, vec![Node::Leaf(tok)]));
        assert_eq!(parse_prog(&tokens)?, (exp, count));
    }

    Ok(())
}

#[test]
fn parse_list_test() -> InterpreTestResult {
    let list_node_manual = Node::Rule(RuleNodeData::new(
        Rule::List,
        vec![Node::Rule(RuleNodeData::new(
            Rule::ListBody,
            vec![
                Node::new_rule_node(
                    Rule::Val,
                    vec![Node::Leaf(Token::NumLiteral(NumLiteral::new_float(12, 4, false)))],
                ),
                Node::Rule(RuleNodeData::new(
                    Rule::ListBody,
                    vec![
                        Node::new_rule_node(Rule::Val, vec![Node::Leaf(Token::CharLiteral(b'c'))]),
                        Node::Rule(RuleNodeData::new(
                            Rule::ListBody,
                            vec![Node::new_rule_node(
                                Rule::Val,
                                vec![Node::Leaf(Token::StringLiteral("ABCD".to_string()))],
                            )],
                        )),
                    ],
                )),
            ],
        ))],
    ));

    let new_list_node = list_node(vec![
        val_node(Token::NumLiteral(NumLiteral::new_float(12, 4, false))),
        val_node(Token::CharLiteral(b'c')),
        val_node(Token::StringLiteral("ABCD".to_string())),
    ])?;

    let tokens = tokenize("([12.4 'c' \"ABCD\"])".chars().collect())?;
    let exp_new = wrap_prog(Node::new_rule_node(Rule::Val, vec![new_list_node]));
    let exp_manual = wrap_prog(Node::new_rule_node(Rule::Val, vec![list_node_manual]));
    assert_eq!(parse_prog(&tokens)?, (exp_new, 7));
    assert_eq!(parse_prog(&tokens)?, (exp_manual, 7));

    Ok(())
}

#[test]
fn reserved_operator_where_value_expected() {
    // A reserved operator where a value is expected names the offending token.
    let tokens = tokenize("(+ 1 sub)".chars().collect()).unwrap();
    let err = parse_prog(&tokens).unwrap_err();
    assert!(err
        .message()
        .contains("Unexpected token encountered while parsing arguments: Reserved(Sub)"));
}

#[test]
fn mismatched_delimiters_rejected() {
    // Missing closing parenthesis.
    let tokens = tokenize("((12)".chars().collect()).unwrap();
    assert!(parse_prog(&tokens).is_err());
    // Missing closing bracket.
    let tokens = tokenize("([12)".chars().collect()).unwrap();
    let err = parse_prog(&tokens).unwrap_err();
    assert!(err.message().contains("while parsing"));
    // Trailing tokens after a complete program are never silently accepted.
    let tokens = tokenize("(12) 13".chars().collect()).unwrap();
    let err = parse_prog(&tokens).unwrap_err();
    assert!(err.message().contains("Unexpected token where EOF was expected"));
    // A mismatched closer in place of the right one.
    let tokens = tokenize("([12])]".chars().collect()).unwrap();
    assert!(parse_prog(&tokens).is_err());
}

#[test]
fn parse_fails_on_heterogeneous_program_shape() {
    // A string followed by a number inside one expression is not a call.
    let tokens = tokenize("(\"ABC\" 12)".chars().collect()).unwrap();
    assert!(parse_prog(&tokens).is_err());
}
