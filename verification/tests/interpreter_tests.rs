use interprete_rs::blisp::functions::eval_add;
use interprete_rs::blisp::interpreter::{
    check_list_type, eval, AbstractType, Argument, Decimal, State, Value, ValueData,
};
use interprete_rs::blisp::lexer::{tokenize, NumLiteral, Type};
use interprete_rs::blisp::parser::parse_prog;
use interprete_rs::error::InterpreTestResult;

fn dec(negative: bool, mantissa: u64, scale: u64) -> Decimal {
    Decimal { negative, mantissa, scale }
}

fn float_value(negative: bool, mantissa: u64, scale: u64) -> Value {
    Value::new(
        AbstractType::ConcreteType(Type::Float),
        ValueData::Float(dec(negative, mantissa, scale)),
    )
}

fn eval_text(input: &str) -> Result<Value, interprete_rs::error::InterpretError> {
    let tokens = tokenize(input.chars().collect())?;
    let prog = parse_prog(&tokens)?;
    eval(prog.0)
}

#[test]
fn num_literal_conversion_test() -> InterpreTestResult {
    let num1 = NumLiteral::new_int_with_suffix(1, true, 'f').unwrap();
    let num2 = NumLiteral::new_float(1, 5, false);
    let num3 = NumLiteral::new_int_with_suffix(48, false, 'c').unwrap();
    let num4 = NumLiteral::new_int(48, false);

    // -1 as a float, and 1.5
    assert_eq!(num1.to_decimal_checked().unwrap(), dec(true, 1, 0));
    assert_eq!(num2.to_decimal_checked().unwrap(), dec(false, 15, 1));
    assert_eq!(Value::try_from_literal(&num3)?, Value::of_char(b'0'));
    assert_eq!(
        Value::try_from_literal(&num4)?,
        Value::new(AbstractType::Number, ValueData::Number(48))
    );

    Ok(())
}

#[test]
fn num_literal_invalid_suffixes() {
    // A negative char literal and a negative unsigned literal are rejected.
    assert!(Value::try_from_literal(&NumLiteral::new_int_with_suffix(1, true, 'c').unwrap())
        .is_err());
    assert!(Value::try_from_literal(&NumLiteral::new_int_with_suffix(1, true, 'u').unwrap())
        .is_err());
    // A char literal above one byte is rejected.
    assert!(Value::try_from_literal(&NumLiteral::new_int_with_suffix(256, false, 'c').unwrap())
        .is_err());
}

#[test]
fn basic_val_test() -> InterpreTestResult {
    assert_eq!(eval_text("(-1.2)")?, float_value(true, 12, 1));
    assert_eq!(eval_text("(48c)")?, Value::of_char(b'0'));
    assert_eq!(
        eval_text("(123)")?,
        Value::new(AbstractType::Number, ValueData::Number(123))
    );
    assert_eq!(
        eval_text("(-123)")?,
        Value::new(AbstractType::NegNumber, ValueData::NegNumber(-123))
    );
    assert_eq!(
        eval_text("([1 2])")?,
        Value::new(
            AbstractType::ConcreteType(Type::List(Box::new(Type::Int))),
            ValueData::List(vec![
                Value::new(AbstractType::Number, ValueData::Number(1)),
                Value::new(AbstractType::Number, ValueData::Number(2)),
            ])
        )
    );
    assert_eq!(
        eval_text("([-1 2])")?,
        Value::new(
            AbstractType::ConcreteType(Type::List(Box::new(Type::Int))),
            ValueData::List(vec![
                Value::new(AbstractType::NegNumber, ValueData::NegNumber(-1)),
                Value::new(AbstractType::Number, ValueData::Number(2)),
            ])
        )
    );
    assert_eq!(
        eval_text("([1 2u])")?,
        Value::new(
            AbstractType::ConcreteType(Type::List(Box::new(Type::UInt))),
            ValueData::List(vec![
                Value::new(AbstractType::Number, ValueData::Number(1)),
                Value::new(AbstractType::ConcreteType(Type::UInt), ValueData::UInt(2)),
            ])
        )
    );
    assert_eq!(
        eval_text("([['a' 'b' 'c'] \"bcd\"])")?,
        Value::new(
            AbstractType::ConcreteType(Type::List(Box::new(Type::List(Box::new(Type::Char))))),
            ValueData::List(vec![
                Value::new(
                    AbstractType::ConcreteType(Type::List(Box::new(Type::Char))),
                    ValueData::List(vec![
                        Value::of_char(b'a'),
                        Value::of_char(b'b'),
                        Value::of_char(b'c'),
                    ])
                ),
                Value::new(
                    AbstractType::ConcreteType(Type::List(Box::new(Type::Char))),
                    ValueData::List(vec![
                        Value::of_char(b'b'),
                        Value::of_char(b'c'),
                        Value::of_char(b'd'),
                    ])
                ),
            ])
        )
    );

    Ok(())
}

#[test]
fn eval_add_test() -> InterpreTestResult {
    let args = vec![
        Argument::Value(float_value(false, 12, 1)),
        Argument::Value(float_value(false, 25, 1)),
    ];

    let res = eval_add(args)?;

    assert_eq!(res, float_value(false, 37, 1));

    Ok(())
}

#[test]
fn basic_e2e() -> InterpreTestResult {
    let input1 = "(+ 1.5 1)";
    let input2 = "(add 1.5 1)";

    let tokens1 = tokenize(input1.chars().collect())?;
    let tokens2 = tokenize(input2.chars().collect())?;

    assert_eq!(tokens1, tokens2);

    let node = parse_prog(&tokens1)?;
    let val = eval(node.0)?;

    assert_eq!(val, float_value(false, 25, 1));

    Ok(())
}

#[test]
fn nested_add_test() -> InterpreTestResult {
    let input1 = "(+ 2 (add 1.5 1))";
    let input2 = "(add 2 (+ 1.5 1))";

    let tokens1 = tokenize(input1.chars().collect())?;
    let tokens2 = tokenize(input2.chars().collect())?;

    assert_eq!(tokens1, tokens2);

    let node = parse_prog(&tokens1)?;
    let val = eval(node.0)?;

    assert_eq!(val, float_value(false, 45, 1));

    Ok(())
}

#[should_panic(expected = "Unable to coerce Float into UInt")]
#[test]
fn invalid_type_test1() {
    let input = "(+ 1u (add 1.5 1))";

    let tokens = tokenize(input.chars().collect()).expect("Failed lexing");

    let node = parse_prog(&tokens).expect("Failed parsing");
    if let Err(e) = eval(node.0) {
        panic!("{}", e.message());
    }
}

#[test]
fn coercion_symmetry_cases() {
    // Success and result agree in both orders; failure agrees too.
    let cases = [
        (AbstractType::Number, AbstractType::NegNumber),
        (AbstractType::Number, AbstractType::ConcreteType(Type::Float)),
        (AbstractType::NegNumber, AbstractType::ConcreteType(Type::Int)),
        (AbstractType::List, AbstractType::ConcreteType(Type::List(Box::new(Type::Char)))),
        (AbstractType::NegNumber, AbstractType::ConcreteType(Type::UInt)),
        (AbstractType::ConcreteType(Type::Char), AbstractType::ConcreteType(Type::Bool)),
    ];
    for (a, b) in cases.into_iter() {
        let lr = AbstractType::coerce_types(a.clone(), b.clone());
        let rl = AbstractType::coerce_types(b, a);
        match (lr, rl) {
            (Ok(x), Ok(y)) => assert_eq!(x, y),
            (Err(_), Err(_)) => {},
            _ => panic!("coercion orders disagree"),
        }
    }
}

#[test]
fn unit_addition_and_mixed_failures() {
    assert_eq!(
        eval_text("(+ () ())").unwrap(),
        Value::of_unit()
    );
    // Chars cannot be added.
    assert!(eval_text("(+ 'a' 'b')").is_err());
    // Heterogeneous lists fail evaluation.
    let err = eval_text("([1.5 'a'])").unwrap_err();
    assert!(err.message().contains("Unable to coerce"));
    // An unbound identifier fails distinctly.
    let err = eval_text("(x)").unwrap_err();
    assert!(err.message().contains("Variable has not been initialized at all: x"));
}

#[test]
fn check_list_type_cases() {
    let vals = vec![
        Value::new(AbstractType::Number, ValueData::Number(1)),
        Value::new(AbstractType::NegNumber, ValueData::NegNumber(-2)),
    ];
    assert_eq!(check_list_type(&vals).unwrap(), Type::Int);
    let empty: Vec<Value> = Vec::new();
    assert!(check_list_type(&empty).is_err());
}

#[test]
fn state_lifecycle() {
    let mut state = State::new();
    // Reading an unknown name fails.
    assert!(state.get_var("x").is_err());
    // Assigning an undeclared name fails.
    assert!(state
        .set_var("x".to_string(), Value::of_char(b'a'))
        .is_err());
    // Declaring works once, and only once.
    assert!(state.create_var("x".to_string(), None).is_ok());
    assert!(state.create_var("x".to_string(), None).is_err());
    // Declared but unset is a distinct failure.
    let err = state.get_var("x").unwrap_err();
    assert!(err.message().contains("initialized but not set"));
    // Setting then reading gives the value back.
    assert!(state.set_var("x".to_string(), Value::of_char(b'a')).is_ok());
    assert_eq!(state.get_var("x").unwrap(), &Value::of_char(b'a'));
}

#[test]
fn decimal_addition_cases() {
    // 1.5 + 1 = 2.5 at scale 1.
    assert_eq!(
        Decimal::add(dec(false, 15, 1), dec(false, 1, 0)).unwrap(),
        dec(false, 25, 1)
    );
    // 1.05 + 1.5 = 2.55: fraction lengths are tracked exactly.
    assert_eq!(
        Decimal::add(dec(false, 105, 2), dec(false, 15, 1)).unwrap(),
        dec(false, 255, 2)
    );
    // Opposite signs subtract; equal magnitudes give a non-negative zero.
    assert_eq!(
        Decimal::add(dec(true, 15, 1), dec(false, 1, 0)).unwrap(),
        dec(true, 5, 1)
    );
    assert_eq!(
        Decimal::add(dec(true, 15, 1), dec(false, 15, 1)).unwrap(),
        dec(false, 0, 1)
    );
}
