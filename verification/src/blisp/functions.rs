//! The builtin dispatch table: each reserved operator's argument-kind
//! signature, and the evaluation rule of the implemented operators. Addition
//! is the implemented arithmetic builtin; it follows the general
//! coerce-then-dispatch template that every numeric builtin shares.

use super::interpreter::{
    spec_arg_kind, spec_arg_val_type, spec_coerce, spec_decimal_add, spec_try_as_float,
    spec_try_as_int, spec_try_as_negnumber, spec_try_as_number, spec_try_as_uint, spec_unit_value,
    AbstractType, Argument, ArgumentModel, ArgumentType, Value, ValueData, ValueDataModel,
    ValueModel,
};
use super::lexer::{ReservedIdent, Type};
use crate::error::{InterpretError, InterpreteResult};
use vstd::prelude::*;

verus! {

/// The argument-kind signature of each reserved operator: binary value
/// operators take two values; unary ones take one; `set` and `def` bind a
/// name to a value; `init` binds a name to a type; `if` takes condition,
/// then and else.
pub open spec fn spec_get_arg_types(func: ReservedIdent) -> Seq<ArgumentType> {
    match func {
        ReservedIdent::Add | ReservedIdent::Sub | ReservedIdent::Div | ReservedIdent::Mul
        | ReservedIdent::Eq | ReservedIdent::Neq | ReservedIdent::Leq | ReservedIdent::Geq
        | ReservedIdent::Lt | ReservedIdent::Gt | ReservedIdent::And | ReservedIdent::Concat
        | ReservedIdent::While | ReservedIdent::Or | ReservedIdent::Take | ReservedIdent::Prepend
        | ReservedIdent::Split => seq![ArgumentType::Value, ArgumentType::Value],
        ReservedIdent::Write | ReservedIdent::Read | ReservedIdent::Eval
        | ReservedIdent::ToString => seq![ArgumentType::Value],
        ReservedIdent::SetVar | ReservedIdent::Def => seq![ArgumentType::Ident, ArgumentType::Value],
        ReservedIdent::Init => seq![ArgumentType::Ident, ArgumentType::Type],
        ReservedIdent::If => seq![ArgumentType::Value, ArgumentType::Value, ArgumentType::Value],
    }
}

/// The argument-kind signature of each reserved operator, as a vector.
pub fn get_arg_types(func: ReservedIdent) -> (r: Vec<ArgumentType>)
    ensures
        r@ =~= spec_get_arg_types(func),
{
    let mut v: Vec<ArgumentType> = Vec::new();
    match func {
        ReservedIdent::Add | ReservedIdent::Sub | ReservedIdent::Div | ReservedIdent::Mul
        | ReservedIdent::Eq | ReservedIdent::Neq | ReservedIdent::Leq | ReservedIdent::Geq
        | ReservedIdent::Lt | ReservedIdent::Gt | ReservedIdent::And | ReservedIdent::Concat
        | ReservedIdent::While | ReservedIdent::Or | ReservedIdent::Take | ReservedIdent::Prepend
        | ReservedIdent::Split => {
            v.push(ArgumentType::Value);
            v.push(ArgumentType::Value);
        },
        ReservedIdent::Write | ReservedIdent::Read | ReservedIdent::Eval
        | ReservedIdent::ToString => {
            v.push(ArgumentType::Value);
        },
        ReservedIdent::SetVar | ReservedIdent::Def => {
            v.push(ArgumentType::Ident);
            v.push(ArgumentType::Value);
        },
        ReservedIdent::Init => {
            v.push(ArgumentType::Ident);
            v.push(ArgumentType::Type);
        },
        ReservedIdent::If => {
            v.push(ArgumentType::Value);
            v.push(ArgumentType::Value);
            v.push(ArgumentType::Value);
        },
    }
    v
}

/// The value payload of a `Value` argument.
pub open spec fn spec_arg_val(a: ArgumentModel) -> Option<ValueModel> {
    match a {
        ArgumentModel::Value(v) => Some(v),
        _ => None,
    }
}

/// Addition. The two arguments' types are coerced to one; the resolved type
/// picks the arithmetic: 64-bit unsigned for `Number` and `UInt`, 64-bit
/// signed for `NegNumber` and `Int`, exact decimal for `Float`; adding units
/// gives unit. Overflow and every other resolved type fail. The first
/// argument popped is the operator's second operand, so coercion sees the
/// operand types in reverse order.
pub open spec fn spec_eval_add(args: Seq<ArgumentModel>) -> Option<ValueModel> {
    if args.len() != 2 {
        None
    } else {
        let a1 = args[1];
        let a2 = args[0];
        match (spec_arg_val_type(a1), spec_arg_val_type(a2)) {
            (Some(t1), Some(t2)) => match spec_coerce(t1, t2) {
                Some(ty) => match (spec_arg_val(a1), spec_arg_val(a2)) {
                    (Some(v1), Some(v2)) => spec_add_dispatch(ty, v1, v2),
                    _ => None,
                },
                None => None,
            },
            _ => None,
        }
    }
}

/// The arithmetic dispatch of addition on the resolved type.
pub open spec fn spec_add_dispatch(ty: AbstractType, v1: ValueModel, v2: ValueModel) -> Option<
    ValueModel,
> {
    match ty {
        AbstractType::Number => match (spec_try_as_number(v1), spec_try_as_number(v2)) {
            (Some(a), Some(b)) => if a + b <= u64::MAX {
                Some(
                    ValueModel {
                        ty: AbstractType::Number,
                        val: ValueDataModel::Number((a + b) as u64),
                    },
                )
            } else {
                None
            },
            _ => None,
        },
        AbstractType::NegNumber => match (spec_try_as_negnumber(v1), spec_try_as_negnumber(v2)) {
            (Some(a), Some(b)) => if i64::MIN <= a + b <= i64::MAX {
                Some(
                    ValueModel {
                        ty: AbstractType::NegNumber,
                        val: ValueDataModel::NegNumber((a + b) as i64),
                    },
                )
            } else {
                None
            },
            _ => None,
        },
        AbstractType::List => None,
        AbstractType::ConcreteType(ct) => match ct {
            Type::Int => match (spec_try_as_int(v1), spec_try_as_int(v2)) {
                (Some(a), Some(b)) => if i64::MIN <= a + b <= i64::MAX {
                    Some(
                        ValueModel {
                            ty: AbstractType::ConcreteType(Type::Int),
                            val: ValueDataModel::Int((a + b) as i64),
                        },
                    )
                } else {
                    None
                },
                _ => None,
            },
            Type::UInt => match (spec_try_as_uint(v1), spec_try_as_uint(v2)) {
                (Some(a), Some(b)) => if a + b <= u64::MAX {
                    Some(
                        ValueModel {
                            ty: AbstractType::ConcreteType(Type::UInt),
                            val: ValueDataModel::UInt((a + b) as u64),
                        },
                    )
                } else {
                    None
                },
                _ => None,
            },
            Type::Float => match (spec_try_as_float(v1), spec_try_as_float(v2)) {
                (Some(a), Some(b)) => match spec_decimal_add(a, b) {
                    Some(d) => Some(
                        ValueModel {
                            ty: AbstractType::ConcreteType(Type::Float),
                            val: ValueDataModel::Float(d),
                        },
                    ),
                    None => None,
                },
                _ => None,
            },
            Type::Unit => Some(spec_unit_value()),
            _ => None,
        },
    }
}

/// Evaluate a builtin call on already-evaluated arguments: the argument
/// kinds must match the operator's signature, and then the operator's rule
/// applies. Addition is the implemented operator; every other operator
/// fails.
pub open spec fn spec_eval_function(func: ReservedIdent, args: Seq<ArgumentModel>) -> Option<
    ValueModel,
> {
    if args.map_values(|a: ArgumentModel| spec_arg_kind(a)) != spec_get_arg_types(func) {
        None
    } else if func == ReservedIdent::Add {
        spec_eval_add(args)
    } else {
        None
    }
}

/// Evaluate addition, exactly as [`spec_eval_add`] says.
pub fn eval_add(args: Vec<Argument>) -> (r: InterpreteResult<Value>)
    ensures
        r matches Ok(v) ==> spec_eval_add(super::interpreter::args_view(args@)) == Some(v@),
        r is Err ==> spec_eval_add(super::interpreter::args_view(args@)) is None,
{
    let ghost am = super::interpreter::args_view(args@);
    if args.len() != 2 {
        return Err(InterpretError::msg("Addition takes exactly two value arguments"));
    }
    let arg1 = &args[1];
    let arg2 = &args[0];
    proof {
        assert(am[1] == arg1@ && am[0] == arg2@);
    }
    let t1 = arg1.try_get_val_type()?;
    let t2 = arg2.try_get_val_type()?;
    let ty = AbstractType::coerce_types(t1, t2)?;
    let val1 = arg1.try_get_val()?;
    let val2 = arg2.try_get_val()?;
    match ty {
        AbstractType::Number => {
            let a = val1.try_as_number()?;
            let b = val2.try_as_number()?;
            match a.checked_add(b) {
                Some(s) => Ok(Value::new(AbstractType::Number, ValueData::Number(s))),
                None => Err(InterpretError::msg("Addition overflowed")),
            }
        },
        AbstractType::NegNumber => {
            let a = val1.try_as_negnumber()?;
            let b = val2.try_as_negnumber()?;
            match a.checked_add(b) {
                Some(s) => Ok(Value::new(AbstractType::NegNumber, ValueData::NegNumber(s))),
                None => Err(InterpretError::msg("Addition overflowed")),
            }
        },
        AbstractType::List => Err(
            InterpretError::msg("Unexpectedly encountered abstract list type in eval step"),
        ),
        AbstractType::ConcreteType(ct) => match ct {
            Type::Int => {
                let a = val1.try_as_int()?;
                let b = val2.try_as_int()?;
                match a.checked_add(b) {
                    Some(s) => Ok(
                        Value::new(
                            AbstractType::ConcreteType(Type::Int),
                            ValueData::Int(s),
                        ),
                    ),
                    None => Err(InterpretError::msg("Addition overflowed")),
                }
            },
            Type::UInt => {
                let a = val1.try_as_uint()?;
                let b = val2.try_as_uint()?;
                match a.checked_add(b) {
                    Some(s) => Ok(
                        Value::new(
                            AbstractType::ConcreteType(Type::UInt),
                            ValueData::UInt(s),
                        ),
                    ),
                    None => Err(InterpretError::msg("Addition overflowed")),
                }
            },
            Type::Float => {
                let a = val1.try_as_float()?;
                let b = val2.try_as_float()?;
                let d = super::interpreter::Decimal::add(a, b)?;
                Ok(Value::new(AbstractType::ConcreteType(Type::Float), ValueData::Float(d)))
            },
            Type::Unit => Ok(Value::of_unit()),
            _ => Err(InterpretError::msg("Unable to add values of this type")),
        },
    }
}

/// Evaluate a builtin call, exactly as [`spec_eval_function`] says: the
/// argument kinds are checked against the operator's signature, and only
/// addition has an evaluation rule.
pub fn eval_function(func: ReservedIdent, args: Vec<Argument>) -> (r: InterpreteResult<Value>)
    ensures
        r matches Ok(v) ==> spec_eval_function(func, super::interpreter::args_view(args@)) == Some(
            v@,
        ),
        r is Err ==> spec_eval_function(func, super::interpreter::args_view(args@)) is None,
{
    let ghost am = super::interpreter::args_view(args@);
    let expected = get_arg_types(func);
    if args.len() != expected.len() {
        proof {
            assert(am.map_values(|a: ArgumentModel| spec_arg_kind(a)).len() == am.len());
        }
        return Err(InterpretError::msg("Wrong number of arguments for operator"));
    }
    let n = args.len();
    let mut i: usize = 0;
    while i < n
        invariant
            i <= n,
            n == args@.len(),
            n == expected@.len(),
            am == super::interpreter::args_view(args@),
            expected@ =~= spec_get_arg_types(func),
            forall|j: int| 0 <= j < i ==> spec_arg_kind(#[trigger] am[j]) == expected@[j],
        decreases n - i,
    {
        if args[i].get_type() != expected[i] {
            proof {
                assert(spec_arg_kind(am[i as int]) != spec_get_arg_types(func)[i as int]);
                assert(am.map_values(|a: ArgumentModel| spec_arg_kind(a))[i as int]
                    != spec_get_arg_types(func)[i as int]);
            }
            return Err(InterpretError::msg("Wrong kind of argument for operator"));
        }
        i = i + 1;
    }
    proof {
        assert(am.map_values(|a: ArgumentModel| spec_arg_kind(a)) =~= spec_get_arg_types(func));
    }
    match func {
        ReservedIdent::Add => eval_add(args),
        _ => Err(InterpretError::msg("Operator is not implemented")),
    }
}

} // verus!
