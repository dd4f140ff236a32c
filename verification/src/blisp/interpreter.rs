//! The evaluator: a tree walk over the syntax tree with a variable
//! environment and an abstract-type coercion algorithm that resolves
//! polymorphic numeric literals (`Number`, `NegNumber`) against concrete
//! types. The executable evaluator is proved to return exactly what the
//! specification evaluation functions describe.

use super::lexer::{LiteralSuffix, NumLiteral, ReservedIdent, Token, TokenModel, Type};
use super::parser::{Node, NodeModel, Rule};
use crate::error::{InterpretError, InterpreteResult};
use vstd::prelude::*;
use vstd::string::{StrSliceExecFns, StringExecFns};

verus! {

broadcast use vstd::seq::axiom_seq_index_decreases, vstd::seq::axiom_seq_subrange_decreases, vstd::std_specs::vec::axiom_vec_decreases_to_view, vstd::std_specs::vec::axiom_vec_index_decreases;

/// The runtime type lattice: a fully resolved type, or one of the
/// polymorphic literal markers. `Number` is an unsuffixed non-negative
/// literal (may become `UInt`, `Int` or `Float`); `NegNumber` an unsuffixed
/// negative literal (may become `Int` or `Float`, never `UInt`); `List` a
/// list whose element type is not yet resolved.
#[derive(Debug, PartialEq, Eq)]
pub enum AbstractType {
    ConcreteType(Type),
    Number,
    NegNumber,
    List,
}

impl Clone for AbstractType {
    /// A deep copy that is provably equal to the source.
    fn clone(&self) -> (r: Self)
        ensures
            r == self,
    {
        match self {
            AbstractType::ConcreteType(t) => AbstractType::ConcreteType(t.deep_copy()),
            AbstractType::Number => AbstractType::Number,
            AbstractType::NegNumber => AbstractType::NegNumber,
            AbstractType::List => AbstractType::List,
        }
    }
}

/// The coercion algorithm: resolve two types to one, or fail. `Number`
/// yields to anything numeric; `NegNumber` yields to `Int` and `Float` but
/// absorbs `Number`; concrete types unify only with themselves; an abstract
/// `List` unifies with any concrete list type.
pub open spec fn spec_coerce(a: AbstractType, b: AbstractType) -> Option<AbstractType> {
    match a {
        AbstractType::List => {
            if (b matches AbstractType::ConcreteType(Type::List(_))) || b == AbstractType::List {
                Some(b)
            } else {
                None
            }
        },
        AbstractType::Number => {
            if b == AbstractType::Number || b == AbstractType::NegNumber || b
                == AbstractType::ConcreteType(Type::Int) || b == AbstractType::ConcreteType(
                Type::UInt,
            ) || b == AbstractType::ConcreteType(Type::Float) {
                Some(b)
            } else {
                None
            }
        },
        AbstractType::NegNumber => {
            if b == AbstractType::NegNumber || b == AbstractType::ConcreteType(Type::Int) || b
                == AbstractType::ConcreteType(Type::Float) {
                Some(b)
            } else if b == AbstractType::Number {
                Some(AbstractType::NegNumber)
            } else {
                None
            }
        },
        AbstractType::ConcreteType(ct) => match b {
            AbstractType::ConcreteType(ct2) => if ct == ct2 {
                Some(AbstractType::ConcreteType(ct2))
            } else {
                None
            },
            AbstractType::Number => if ct == Type::Int || ct == Type::UInt || ct == Type::Float {
                Some(AbstractType::ConcreteType(ct))
            } else {
                None
            },
            AbstractType::NegNumber => if ct == Type::Int || ct == Type::Float {
                Some(AbstractType::ConcreteType(ct))
            } else {
                None
            },
            AbstractType::List => if ct matches Type::List(_) {
                Some(AbstractType::ConcreteType(ct))
            } else {
                None
            },
        },
    }
}

/// The written name of a concrete type, as used in error messages.
fn describe_type(t: &Type) -> (s: String)
    decreases *t,
{
    match t {
        Type::Int => "Int".to_owned(),
        Type::UInt => "UInt".to_owned(),
        Type::Float => "Float".to_owned(),
        Type::Unit => "Unit".to_owned(),
        Type::Char => "Char".to_owned(),
        Type::Bool => "Bool".to_owned(),
        Type::List(inner) => {
            let mut m = "List(".to_owned();
            let d = describe_type(inner);
            m.append(d.as_str());
            m.append(")");
            m
        },
        Type::Tuple(x, y) => {
            let mut m = "Tuple(".to_owned();
            let dx = describe_type(x);
            m.append(dx.as_str());
            m.append(", ");
            let dy = describe_type(y);
            m.append(dy.as_str());
            m.append(")");
            m
        },
    }
}

/// The written name of an abstract type, as used in error messages.
fn describe_abstract_type(t: &AbstractType) -> (s: String) {
    match t {
        AbstractType::ConcreteType(ct) => describe_type(ct),
        AbstractType::Number => "Number".to_owned(),
        AbstractType::NegNumber => "NegNumber".to_owned(),
        AbstractType::List => "List".to_owned(),
    }
}

fn coerce_err(a: &AbstractType, b: &AbstractType) -> (e: InterpretError) {
    let mut m = "Unable to coerce ".to_owned();
    let da = describe_abstract_type(a);
    m.append(da.as_str());
    m.append(" into ");
    let db = describe_abstract_type(b);
    m.append(db.as_str());
    InterpretError::from_string(m)
}

impl AbstractType {
    /// Resolve two types to one, exactly as [`spec_coerce`] says; the error
    /// message names both operand types.
    pub fn coerce_types(first: AbstractType, second: AbstractType) -> (r: InterpreteResult<
        AbstractType,
    >)
        ensures
            r matches Ok(t) ==> spec_coerce(first, second) == Some(t),
            r is Err ==> spec_coerce(first, second) is None,
    {
        match (&first, &second) {
            (AbstractType::List, AbstractType::ConcreteType(Type::List(_))) => Ok(second),
            (AbstractType::List, AbstractType::List) => Ok(second),
            (AbstractType::List, _) => Err(coerce_err(&first, &second)),
            (AbstractType::Number, AbstractType::Number) => Ok(second),
            (AbstractType::Number, AbstractType::NegNumber) => Ok(second),
            (AbstractType::Number, AbstractType::ConcreteType(Type::Int)) => Ok(second),
            (AbstractType::Number, AbstractType::ConcreteType(Type::UInt)) => Ok(second),
            (AbstractType::Number, AbstractType::ConcreteType(Type::Float)) => Ok(second),
            (AbstractType::Number, _) => Err(coerce_err(&first, &second)),
            (AbstractType::NegNumber, AbstractType::NegNumber) => Ok(second),
            (AbstractType::NegNumber, AbstractType::ConcreteType(Type::Int)) => Ok(second),
            (AbstractType::NegNumber, AbstractType::ConcreteType(Type::Float)) => Ok(second),
            (AbstractType::NegNumber, AbstractType::Number) => Ok(AbstractType::NegNumber),
            (AbstractType::NegNumber, _) => Err(coerce_err(&first, &second)),
            (AbstractType::ConcreteType(ct), AbstractType::ConcreteType(ct2)) => {
                if super::lexer::type_eq(ct, ct2) {
                    Ok(second)
                } else {
                    Err(coerce_err(&first, &second))
                }
            },
            (AbstractType::ConcreteType(Type::Int), AbstractType::Number) => Ok(first),
            (AbstractType::ConcreteType(Type::UInt), AbstractType::Number) => Ok(first),
            (AbstractType::ConcreteType(Type::Float), AbstractType::Number) => Ok(first),
            (AbstractType::ConcreteType(Type::Int), AbstractType::NegNumber) => Ok(first),
            (AbstractType::ConcreteType(Type::Float), AbstractType::NegNumber) => Ok(first),
            (AbstractType::ConcreteType(Type::List(_)), AbstractType::List) => Ok(first),
            (AbstractType::ConcreteType(_), _) => Err(coerce_err(&first, &second)),
        }
    }
}

/// Coercion is symmetric in result: the two orders succeed together, and
/// when they succeed they resolve to the same type.
pub proof fn lemma_coerce_symmetric(a: AbstractType, b: AbstractType)
    ensures
        spec_coerce(a, b) is Some <==> spec_coerce(b, a) is Some,
        spec_coerce(a, b) matches Some(t) ==> spec_coerce(b, a) == Some(t),
{
}

} // verus!

verus! {

use super::lexer::pow10;

/// An exact decimal number: `(-1 if negative) * mantissa / 10^scale`. This is
/// the payload of a `Float` value; all arithmetic on it is exact, and fails
/// (rather than rounding) when a result cannot be represented.
#[derive(Debug, PartialEq, Eq, Structural, Clone, Copy)]
pub struct Decimal {
    pub negative: bool,
    pub mantissa: u64,
    pub scale: u64,
}

/// The signed value of a decimal, scaled up by `10^(s - scale)` so that two
/// decimals of scale at most `s` can be compared and added as integers.
pub open spec fn decimal_scaled(d: Decimal, s: nat) -> int {
    let m = d.mantissa * pow10((s - d.scale) as nat);
    if d.negative {
        -(m as int)
    } else {
        m as int
    }
}

proof fn lemma_pow10_add(a: nat, b: nat)
    ensures
        pow10((a + b) as nat) == pow10(a) * pow10(b),
    decreases a,
{
    if a == 0 {
        assert(pow10((a + b) as nat) == pow10(a) * pow10(b)) by (nonlinear_arith)
            requires
                pow10((a + b) as nat) == pow10(b),
                pow10(a) == 1,
        ;
    } else {
        lemma_pow10_add((a - 1) as nat, b);
        assert(pow10((a + b) as nat) == 10 * pow10((a + b - 1) as nat));
        assert(pow10(a) == 10 * pow10((a - 1) as nat));
        assert((a - 1) as nat + b == (a + b - 1) as nat);
        assert(pow10((a + b - 1) as nat) == pow10((a - 1) as nat) * pow10(b));
        assert(pow10((a + b) as nat) == pow10(a) * pow10(b)) by (nonlinear_arith)
            requires
                pow10((a + b) as nat) == 10 * (pow10((a - 1) as nat) * pow10(b)),
                pow10(a) == 10 * pow10((a - 1) as nat),
        ;
    }
}

proof fn lemma_pow10_pos(k: nat)
    ensures
        pow10(k) >= 1,
    decreases k,
{
    if k > 0 {
        lemma_pow10_pos((k - 1) as nat);
    }
}

proof fn lemma_mul_pow10_mono(m: nat, j: nat, k: nat)
    requires
        j <= k,
    ensures
        m * pow10(j) <= m * pow10(k),
{
    lemma_pow10_add(j, (k - j) as nat);
    lemma_pow10_pos((k - j) as nat);
    assert(m * (pow10(j) * pow10((k - j) as nat)) >= m * pow10(j)) by (nonlinear_arith)
        requires
            pow10((k - j) as nat) >= 1,
    ;
}

/// Multiply a mantissa by `10^k`, exactly when the result still fits.
fn scale_up(m: u64, k: u64) -> (r: Option<u64>)
    ensures
        m * pow10(k as nat) <= u64::MAX ==> r == Some((m * pow10(k as nat)) as u64),
        m * pow10(k as nat) > u64::MAX ==> r is None,
{
    let mut acc: u64 = m;
    let mut j: u64 = 0;
    proof {
        assert(pow10(0) == 1);
        assert(m * 1 == m) by (nonlinear_arith);
    }
    while j < k
        invariant
            0 <= j <= k,
            acc == m * pow10(j as nat),
        decreases k - j,
    {
        proof {
            assert(pow10((j + 1) as nat) == 10 * pow10(j as nat));
            assert(m * (10 * pow10(j as nat)) == (m * pow10(j as nat)) * 10) by (nonlinear_arith);
        }
        acc = match acc.checked_mul(10) {
            Some(x) => x,
            None => {
                proof {
                    lemma_mul_pow10_mono(m as nat, (j + 1) as nat, k as nat);
                }
                return None;
            },
        };
        j = j + 1;
    }
    Some(acc)
}

/// Exact decimal addition: align the two mantissas to the larger scale, then
/// add or subtract magnitudes by sign. `None` when an aligned mantissa or
/// the result does not fit in 64 bits. A zero result is never negative.
pub open spec fn spec_decimal_add(a: Decimal, b: Decimal) -> Option<Decimal> {
    let s = if a.scale >= b.scale {
        a.scale
    } else {
        b.scale
    };
    let am = a.mantissa * pow10((s - a.scale) as nat);
    let bm = b.mantissa * pow10((s - b.scale) as nat);
    if am > u64::MAX || bm > u64::MAX {
        None
    } else if a.negative == b.negative {
        if am + bm > u64::MAX {
            None
        } else {
            Some(
                Decimal {
                    negative: (if am + bm == 0 {
                        false
                    } else {
                        a.negative
                    }),
                    mantissa: (am + bm) as u64,
                    scale: s,
                },
            )
        }
    } else if am == bm {
        Some(Decimal { negative: false, mantissa: 0, scale: s })
    } else if am > bm {
        Some(Decimal { negative: a.negative, mantissa: (am - bm) as u64, scale: s })
    } else {
        Some(Decimal { negative: b.negative, mantissa: (bm - am) as u64, scale: s })
    }
}

impl Decimal {
    /// Exact decimal addition, exactly as [`spec_decimal_add`] says. The sum
    /// of the two represented numbers is preserved: at the common scale, the
    /// result's signed mantissa is the sum of the operands'.
    pub fn add(a: Decimal, b: Decimal) -> (r: InterpreteResult<Decimal>)
        ensures
            r matches Ok(d) ==> spec_decimal_add(a, b) == Some(d),
            r matches Ok(d) ==> d.scale >= a.scale && d.scale >= b.scale && decimal_scaled(
                d,
                d.scale as nat,
            ) == decimal_scaled(a, d.scale as nat) + decimal_scaled(b, d.scale as nat),
            r is Err ==> spec_decimal_add(a, b) is None,
    {
        let s = if a.scale >= b.scale {
            a.scale
        } else {
            b.scale
        };
        let am = match scale_up(a.mantissa, s - a.scale) {
            Some(x) => x,
            None => {
                return Err(InterpretError::msg("Float addition overflowed"));
            },
        };
        let bm = match scale_up(b.mantissa, s - b.scale) {
            Some(x) => x,
            None => {
                return Err(InterpretError::msg("Float addition overflowed"));
            },
        };
        proof {
            assert(pow10(0) == 1);
        }
        if a.negative == b.negative {
            match am.checked_add(bm) {
                Some(m) => Ok(
                    Decimal {
                        negative: (if m == 0 {
                            false
                        } else {
                            a.negative
                        }),
                        mantissa: m,
                        scale: s,
                    },
                ),
                None => Err(InterpretError::msg("Float addition overflowed")),
            }
        } else if am == bm {
            Ok(Decimal { negative: false, mantissa: 0, scale: s })
        } else if am > bm {
            Ok(Decimal { negative: a.negative, mantissa: am - bm, scale: s })
        } else {
            Ok(Decimal { negative: b.negative, mantissa: bm - am, scale: s })
        }
    }
}

} // verus!

verus! {

/// The payload of a runtime value.
#[derive(Debug, PartialEq)]
pub enum ValueData {
    Int(i64),
    UInt(u64),
    Float(Decimal),
    List(Vec<Value>),
    Unit,
    Char(u8),
    Bool(bool),
    Number(u64),
    NegNumber(i64),
}

/// A runtime value: its (possibly still abstract) type and its payload.
#[derive(Debug, PartialEq)]
pub struct Value {
    pub ty: AbstractType,
    pub val: ValueData,
}

/// The mathematical shape of a payload.
pub enum ValueDataModel {
    Int(i64),
    UInt(u64),
    Float(Decimal),
    List(Seq<ValueModel>),
    Unit,
    Char(u8),
    Bool(bool),
    Number(u64),
    NegNumber(i64),
}

/// The mathematical shape of a runtime value.
pub struct ValueModel {
    pub ty: AbstractType,
    pub val: ValueDataModel,
}

/// The model of a value.
pub open spec fn value_view(v: Value) -> ValueModel
    decreases v,
{
    ValueModel {
        ty: v.ty,
        val: match v.val {
            ValueData::Int(n) => ValueDataModel::Int(n),
            ValueData::UInt(n) => ValueDataModel::UInt(n),
            ValueData::Float(d) => ValueDataModel::Float(d),
            ValueData::List(l) => ValueDataModel::List(values_view(l@)),
            ValueData::Unit => ValueDataModel::Unit,
            ValueData::Char(c) => ValueDataModel::Char(c),
            ValueData::Bool(b) => ValueDataModel::Bool(b),
            ValueData::Number(n) => ValueDataModel::Number(n),
            ValueData::NegNumber(n) => ValueDataModel::NegNumber(n),
        },
    }
}

/// The models of a value sequence, in order.
pub open spec fn values_view(s: Seq<Value>) -> Seq<ValueModel>
    decreases s,
{
    if s.len() == 0 {
        Seq::empty()
    } else {
        seq![value_view(s[0])] + values_view(s.subrange(1, s.len() as int))
    }
}

impl View for Value {
    type V = ValueModel;

    open spec fn view(&self) -> ValueModel {
        value_view(*self)
    }
}

/// The element-wise reading of [`values_view`].
pub proof fn lemma_values_view_elts(s: Seq<Value>)
    ensures
        values_view(s).len() == s.len(),
        forall|i: int| 0 <= i < s.len() ==> values_view(s)[i] == value_view(#[trigger] s[i]),
    decreases s,
{
    if s.len() > 0 {
        lemma_values_view_elts(s.subrange(1, s.len() as int));
        assert forall|i: int| 0 <= i < s.len() implies values_view(s)[i] == value_view(
            #[trigger] s[i],
        ) by {
            if i > 0 {
                assert(s.subrange(1, s.len() as int)[i - 1] == s[i]);
            }
        }
    }
}

/// A value tagged `Char`.
pub open spec fn spec_char_value(c: u8) -> ValueModel {
    ValueModel { ty: AbstractType::ConcreteType(Type::Char), val: ValueDataModel::Char(c) }
}

/// A value tagged `Unit`.
pub open spec fn spec_unit_value() -> ValueModel {
    ValueModel { ty: AbstractType::ConcreteType(Type::Unit), val: ValueDataModel::Unit }
}

/// A string becomes a list of characters, each held as one byte.
pub open spec fn spec_string_value(s: Seq<char>) -> ValueModel {
    ValueModel {
        ty: AbstractType::ConcreteType(Type::List(Box::new(Type::Char))),
        val: ValueDataModel::List(s.map_values(|c: char| spec_char_value(c as u8))),
    }
}

impl Value {
    /// Pair a type with a payload.
    pub fn new(ty: AbstractType, val: ValueData) -> (r: Self)
        ensures
            r.ty == ty,
            r.val == val,
    {
        Value { ty, val }
    }

    /// True when the value's type is the abstract (unresolved) list type.
    pub fn is_list(&self) -> (r: bool)
        ensures
            r == (self.ty == AbstractType::List),
    {
        matches!(&self.ty, AbstractType::List)
    }

    /// A value holding one character.
    pub fn of_char(c: u8) -> (r: Self)
        ensures
            r@ == spec_char_value(c),
    {
        Value { ty: AbstractType::ConcreteType(Type::Char), val: ValueData::Char(c) }
    }

    /// The unit value.
    pub fn of_unit() -> (r: Self)
        ensures
            r@ == spec_unit_value(),
    {
        Value { ty: AbstractType::ConcreteType(Type::Unit), val: ValueData::Unit }
    }

    /// A string value: a list of its characters.
    pub fn of_string(s: &str) -> (r: Self)
        ensures
            r@ == spec_string_value(s@),
    {
        let n = s.unicode_len();
        let mut elems: Vec<Value> = Vec::new();
        let mut i: usize = 0;
        while i < n
            invariant
                i <= n,
                n == s@.len(),
                elems@.len() == i,
                forall|k: int|
                    0 <= k < i ==> value_view(#[trigger] elems@[k]) == spec_char_value(
                        (s@[k] as u8),
                    ),
            decreases n - i,
        {
            let c = s.get_char(i);
            elems.push(Value::of_char(#[verifier::truncate] (c as u8)));
            i = i + 1;
        }
        proof {
            lemma_values_view_elts(elems@);
            assert forall|k: int| 0 <= k < n implies values_view(elems@)[k] == s@.map_values(
                |c: char| spec_char_value(c as u8),
            )[k] by {
                assert(value_view(elems@[k]) == spec_char_value((s@[k] as u8)));
            }
            assert(values_view(elems@) =~= s@.map_values(|c: char| spec_char_value(c as u8)));
        }
        Value {
            ty: AbstractType::ConcreteType(Type::List(Box::new(Type::Char))),
            val: ValueData::List(elems),
        }
    }

    /// A deep copy whose model equals the source's.
    #[verifier::loop_isolation(false)]
    pub fn deep_copy(&self) -> (r: Value)
        ensures
            r@ == self@,
        decreases *self,
    {
        let ty = self.ty.clone();
        let val = match &self.val {
            ValueData::Int(n) => ValueData::Int(*n),
            ValueData::UInt(n) => ValueData::UInt(*n),
            ValueData::Float(d) => ValueData::Float(*d),
            ValueData::Unit => ValueData::Unit,
            ValueData::Char(c) => ValueData::Char(*c),
            ValueData::Bool(b) => ValueData::Bool(*b),
            ValueData::Number(n) => ValueData::Number(*n),
            ValueData::NegNumber(n) => ValueData::NegNumber(*n),
            ValueData::List(l) => {
                let mut out: Vec<Value> = Vec::new();
                let n = l.len();
                let mut k: usize = 0;
                while k < n
                    invariant
                        k <= n,
                        n == l@.len(),
                        out@.len() == k,
                        forall|i: int|
                            0 <= i < k ==> value_view(#[trigger] out@[i]) == value_view(l@[i]),
                    decreases n - k,
                {
                    let child = &l[k];
                    out.push(child.deep_copy());
                    k = k + 1;
                }
                proof {
                    lemma_values_view_elts(out@);
                    lemma_values_view_elts(l@);
                    assert forall|i: int| 0 <= i < n implies values_view(out@)[i] == values_view(
                        l@,
                    )[i] by {
                        assert(value_view(out@[i]) == value_view(l@[i]));
                    }
                    assert(values_view(out@) =~= values_view(l@));
                }
                ValueData::List(out)
            },
        };
        Value { ty, val }
    }
}

impl Clone for Value {
    /// A deep copy whose model equals the source's.
    fn clone(&self) -> (r: Self)
        ensures
            r@ == self@,
    {
        self.deep_copy()
    }
}

} // verus!

verus! {

/// The payload of a `Number`-typed value.
pub open spec fn spec_try_as_number(v: ValueModel) -> Option<u64> {
    match v.val {
        ValueDataModel::Number(n) => Some(n),
        _ => None,
    }
}

/// A `Number` or `NegNumber` payload as a signed integer; a `Number` too
/// large for the signed range fails.
pub open spec fn spec_try_as_negnumber(v: ValueModel) -> Option<i64> {
    match v.val {
        ValueDataModel::Number(n) => if n <= i64::MAX {
            Some(n as i64)
        } else {
            None
        },
        ValueDataModel::NegNumber(n) => Some(n),
        _ => None,
    }
}

/// A `Number`, `NegNumber` or `Int` payload as a signed integer.
pub open spec fn spec_try_as_int(v: ValueModel) -> Option<i64> {
    match v.val {
        ValueDataModel::Number(n) => if n <= i64::MAX {
            Some(n as i64)
        } else {
            None
        },
        ValueDataModel::NegNumber(n) => Some(n),
        ValueDataModel::Int(n) => Some(n),
        _ => None,
    }
}

/// A `Number` or `UInt` payload as an unsigned integer.
pub open spec fn spec_try_as_uint(v: ValueModel) -> Option<u64> {
    match v.val {
        ValueDataModel::Number(n) => Some(n),
        ValueDataModel::UInt(n) => Some(n),
        _ => None,
    }
}

/// A `Number`, `NegNumber` or `Float` payload as an exact decimal.
pub open spec fn spec_try_as_float(v: ValueModel) -> Option<Decimal> {
    match v.val {
        ValueDataModel::Number(n) => Some(Decimal { negative: false, mantissa: n, scale: 0 }),
        ValueDataModel::NegNumber(n) => Some(
            Decimal {
                negative: n < 0,
                mantissa: (if n >= 0 {
                    n as int
                } else {
                    -(n as int)
                }) as u64,
                scale: 0,
            },
        ),
        ValueDataModel::Float(d) => Some(d),
        _ => None,
    }
}

impl Value {
    /// The payload of a `Number`-typed value.
    pub fn try_as_number(&self) -> (r: InterpreteResult<u64>)
        ensures
            r matches Ok(n) ==> spec_try_as_number(self@) == Some(n),
            r is Err ==> spec_try_as_number(self@) is None,
    {
        if let ValueData::Number(n) = &self.val {
            Ok(*n)
        } else {
            Err(InterpretError::msg("Tried to convert non-number value to number"))
        }
    }

    /// A `Number` or `NegNumber` payload as a signed integer.
    pub fn try_as_negnumber(&self) -> (r: InterpreteResult<i64>)
        ensures
            r matches Ok(n) ==> spec_try_as_negnumber(self@) == Some(n),
            r is Err ==> spec_try_as_negnumber(self@) is None,
    {
        match &self.val {
            ValueData::Number(n) => {
                if *n <= i64::MAX as u64 {
                    Ok(*n as i64)
                } else {
                    Err(InterpretError::msg("Number is too large for the signed range"))
                }
            },
            ValueData::NegNumber(n) => Ok(*n),
            _ => Err(InterpretError::msg("Tried to convert invalid value to negnumber")),
        }
    }

    /// A `Number`, `NegNumber` or `Int` payload as a signed integer.
    pub fn try_as_int(&self) -> (r: InterpreteResult<i64>)
        ensures
            r matches Ok(n) ==> spec_try_as_int(self@) == Some(n),
            r is Err ==> spec_try_as_int(self@) is None,
    {
        match &self.val {
            ValueData::Number(n) => {
                if *n <= i64::MAX as u64 {
                    Ok(*n as i64)
                } else {
                    Err(InterpretError::msg("Number is too large for the signed range"))
                }
            },
            ValueData::NegNumber(n) => Ok(*n),
            ValueData::Int(n) => Ok(*n),
            _ => Err(InterpretError::msg("Tried to convert invalid value to int")),
        }
    }

    /// A `Number` or `UInt` payload as an unsigned integer.
    pub fn try_as_uint(&self) -> (r: InterpreteResult<u64>)
        ensures
            r matches Ok(n) ==> spec_try_as_uint(self@) == Some(n),
            r is Err ==> spec_try_as_uint(self@) is None,
    {
        match &self.val {
            ValueData::Number(n) => Ok(*n),
            ValueData::UInt(n) => Ok(*n),
            _ => Err(InterpretError::msg("Tried to convert invalid value to uint")),
        }
    }

    /// A `Number`, `NegNumber` or `Float` payload as an exact decimal.
    pub fn try_as_float(&self) -> (r: InterpreteResult<Decimal>)
        ensures
            r matches Ok(d) ==> spec_try_as_float(self@) == Some(d),
            r is Err ==> spec_try_as_float(self@) is None,
    {
        match &self.val {
            ValueData::Number(n) => Ok(Decimal { negative: false, mantissa: *n, scale: 0 }),
            ValueData::NegNumber(n) => {
                let m = *n;
                let mag: u64 = if m >= 0 {
                    m as u64
                } else {
                    (-(m + 1)) as u64 + 1
                };
                Ok(Decimal { negative: m < 0, mantissa: mag, scale: 0 })
            },
            ValueData::Float(d) => Ok(*d),
            _ => Err(InterpretError::msg("Tried to convert invalid value to float")),
        }
    }

    /// The elements of a `List` payload, deeply copied.
    pub fn try_as_list(&self) -> (r: InterpreteResult<Vec<Value>>)
        ensures
            r matches Ok(l) ==> self@.val matches ValueDataModel::List(elems) && values_view(l@)
                == elems,
            r is Err ==> !(self@.val is List),
    {
        match &self.val {
            ValueData::List(l) => {
                let mut out: Vec<Value> = Vec::new();
                let n = l.len();
                let mut k: usize = 0;
                while k < n
                    invariant
                        k <= n,
                        n == l@.len(),
                        out@.len() == k,
                        forall|i: int|
                            0 <= i < k ==> value_view(#[trigger] out@[i]) == value_view(l@[i]),
                    decreases n - k,
                {
                    let child = &l[k];
                    out.push(child.deep_copy());
                    k = k + 1;
                }
                proof {
                    lemma_values_view_elts(out@);
                    lemma_values_view_elts(l@);
                    assert forall|i: int| 0 <= i < n implies values_view(out@)[i] == values_view(
                        l@,
                    )[i] by {
                        assert(value_view(out@[i]) == value_view(l@[i]));
                    }
                    assert(values_view(out@) =~= values_view(l@));
                }
                Ok(out)
            },
            _ => Err(InterpretError::msg("Tried to convert invalid value to list")),
        }
    }

    /// Succeeds exactly on the `Unit` payload.
    pub fn try_as_unit(&self) -> (r: InterpreteResult<()>)
        ensures
            r is Ok <==> self@.val is Unit,
    {
        match &self.val {
            ValueData::Unit => Ok(()),
            _ => Err(InterpretError::msg("Tried to convert invalid value to unit")),
        }
    }

    /// The payload of a `Char`-typed value.
    pub fn try_as_char(&self) -> (r: InterpreteResult<u8>)
        ensures
            r matches Ok(c) ==> self@.val == ValueDataModel::Char(c),
            r is Err ==> !(self@.val is Char),
    {
        match &self.val {
            ValueData::Char(c) => Ok(*c),
            _ => Err(InterpretError::msg("Tried to convert invalid value to char")),
        }
    }

    /// The payload of a `Bool`-typed value.
    pub fn try_as_bool(&self) -> (r: InterpreteResult<bool>)
        ensures
            r matches Ok(b) ==> self@.val == ValueDataModel::Bool(b),
            r is Err ==> !(self@.val is Bool),
    {
        match &self.val {
            ValueData::Bool(b) => Ok(*b),
            _ => Err(InterpretError::msg("Tried to convert invalid value to bool")),
        }
    }
}

/// The exact decimal a numeric literal denotes: the mantissa is the integer
/// part shifted past the fraction digits, and fails when it does not fit.
pub open spec fn spec_decimal_of(n: NumLiteral) -> Option<Decimal> {
    let m = n.int_part * pow10(n.dec_len as nat) + n.dec_part;
    if m <= u64::MAX {
        Some(Decimal { negative: n.negative, mantissa: m as u64, scale: n.dec_len })
    } else {
        None
    }
}

/// Resolve a numeric literal to a runtime value. Unsuffixed integer literals
/// stay polymorphic (`Number` or `NegNumber`); a fraction or the `f` suffix
/// makes a float; `c` makes a character (one byte, non-negative, no
/// fraction); `u` makes an unsigned integer (non-negative, no fraction).
pub open spec fn spec_literal_value(n: NumLiteral) -> Option<ValueModel> {
    match n.suffix {
        LiteralSuffix::Empty => {
            if n.float {
                match spec_decimal_of(n) {
                    Some(d) => Some(
                        ValueModel {
                            ty: AbstractType::ConcreteType(Type::Float),
                            val: ValueDataModel::Float(d),
                        },
                    ),
                    None => None,
                }
            } else if n.negative {
                if n.int_part <= 0x8000_0000_0000_0000u64 {
                    Some(
                        ValueModel {
                            ty: AbstractType::NegNumber,
                            val: ValueDataModel::NegNumber((-(n.int_part as int)) as i64),
                        },
                    )
                } else {
                    None
                }
            } else {
                Some(ValueModel { ty: AbstractType::Number, val: ValueDataModel::Number(n.int_part) })
            }
        },
        LiteralSuffix::Char => {
            if n.float || n.negative || n.int_part > 255 {
                None
            } else {
                Some(spec_char_value(n.int_part as u8))
            }
        },
        LiteralSuffix::Float => {
            match spec_decimal_of(n) {
                Some(d) => Some(
                    ValueModel {
                        ty: AbstractType::ConcreteType(Type::Float),
                        val: ValueDataModel::Float(d),
                    },
                ),
                None => None,
            }
        },
        LiteralSuffix::Unsigned => {
            if n.float || n.negative {
                None
            } else {
                Some(
                    ValueModel {
                        ty: AbstractType::ConcreteType(Type::UInt),
                        val: ValueDataModel::UInt(n.int_part),
                    },
                )
            }
        },
    }
}

impl NumLiteral {
    /// The exact decimal this literal denotes, exactly as
    /// [`spec_decimal_of`] says.
    pub fn to_decimal_checked(&self) -> (r: InterpreteResult<Decimal>)
        ensures
            r matches Ok(d) ==> spec_decimal_of(*self) == Some(d),
            r is Err ==> spec_decimal_of(*self) is None,
    {
        let shifted = match scale_up(self.int_part, self.dec_len) {
            Some(x) => x,
            None => {
                return Err(InterpretError::msg("Numeric literal is too large"));
            },
        };
        match shifted.checked_add(self.dec_part) {
            Some(m) => Ok(Decimal { negative: self.negative, mantissa: m, scale: self.dec_len }),
            None => Err(InterpretError::msg("Numeric literal is too large")),
        }
    }
}

impl Value {
    /// Resolve a numeric literal to a runtime value, exactly as
    /// [`spec_literal_value`] says.
    pub fn try_from_literal(value: &NumLiteral) -> (r: InterpreteResult<Value>)
        ensures
            r matches Ok(v) ==> spec_literal_value(*value) == Some(v@),
            r is Err ==> spec_literal_value(*value) is None,
    {
        match value.suffix {
            LiteralSuffix::Empty => {
                if value.float {
                    let d = value.to_decimal_checked()?;
                    Ok(
                        Value {
                            ty: AbstractType::ConcreteType(Type::Float),
                            val: ValueData::Float(d),
                        },
                    )
                } else if value.negative {
                    if value.int_part <= 0x8000_0000_0000_0000u64 {
                        let mag = value.int_part;
                        let n: i64 = if mag == 0x8000_0000_0000_0000u64 {
                            i64::MIN
                        } else {
                            -(mag as i64)
                        };
                        Ok(Value { ty: AbstractType::NegNumber, val: ValueData::NegNumber(n) })
                    } else {
                        Err(InterpretError::msg("Negative literal is too large"))
                    }
                } else {
                    Ok(Value { ty: AbstractType::Number, val: ValueData::Number(value.int_part) })
                }
            },
            LiteralSuffix::Char => {
                if value.float || value.negative || value.int_part > 255 {
                    Err(InterpretError::msg("Unable to process NumLiteral with Char suffix"))
                } else {
                    Ok(Value::of_char(value.int_part as u8))
                }
            },
            LiteralSuffix::Float => {
                let d = value.to_decimal_checked()?;
                Ok(Value { ty: AbstractType::ConcreteType(Type::Float), val: ValueData::Float(d) })
            },
            LiteralSuffix::Unsigned => {
                if value.float || value.negative {
                    Err(InterpretError::msg("Unable to process NumLiteral with Unsigned suffix"))
                } else {
                    Ok(
                        Value {
                            ty: AbstractType::ConcreteType(Type::UInt),
                            val: ValueData::UInt(value.int_part),
                        },
                    )
                }
            },
        }
    }
}

} // verus!

verus! {

/// An optional value as a model.
pub open spec fn opt_value_model(v: Option<Value>) -> Option<ValueModel> {
    match v {
        Some(x) => Some(value_view(x)),
        None => None,
    }
}

/// True when some entry of the environment binds the name `k`.
pub open spec fn env_has_key(s: Seq<(String, Option<Value>)>, k: Seq<char>) -> bool {
    exists|i: int| 0 <= i < s.len() && (#[trigger] s[i]).0@ == k
}

/// The index of the entry binding `k`; meaningful under [`State::wf`].
pub closed spec fn env_idx_of(s: Seq<(String, Option<Value>)>, k: Seq<char>) -> int {
    choose|i: int| 0 <= i < s.len() && (#[trigger] s[i]).0@ == k
}

/// The variable environment: a mapping from identifier to an optional value
/// (a variable may be declared but not yet set). Its view is the map from
/// names to their bindings.
pub struct State {
    pub vars: Vec<(String, Option<Value>)>,
}

impl State {
    /// Each name is bound at most once.
    pub open spec fn wf(&self) -> bool {
        forall|i: int, j: int|
            0 <= i < j < self.vars@.len() ==> (#[trigger] self.vars@[i]).0@ != (
            #[trigger] self.vars@[j]).0@
    }

    /// The environment as a map from names to bindings.
    pub open spec fn view(&self) -> Map<Seq<char>, Option<ValueModel>> {
        Map::new(
            |k: Seq<char>| env_has_key(self.vars@, k),
            |k: Seq<char>| opt_value_model(self.vars@[env_idx_of(self.vars@, k)].1),
        )
    }

    /// An empty environment.
    pub fn new() -> (r: Self)
        ensures
            r.wf(),
            r@ =~= Map::<Seq<char>, Option<ValueModel>>::empty(),
    {
        let r = State { vars: Vec::new() };
        proof {
            assert forall|k: Seq<char>| !env_has_key(r.vars@, k) by {}
        }
        r
    }

    proof fn lemma_idx(s: Seq<(String, Option<Value>)>, k: Seq<char>, i: int)
        requires
            0 <= i < s.len(),
            s[i].0@ == k,
            forall|x: int, y: int|
                0 <= x < y < s.len() ==> (#[trigger] s[x]).0@ != (#[trigger] s[y]).0@,
        ensures
            env_has_key(s, k),
            env_idx_of(s, k) == i,
    {
        assert(env_has_key(s, k));
        let j = env_idx_of(s, k);
        assert(0 <= j < s.len() && s[j].0@ == k);
        if i < j {
            assert(s[i].0@ != s[j].0@);
        } else if j < i {
            assert(s[j].0@ != s[i].0@);
        }
    }

    /// Look a variable up. Fails distinctly for a name never declared and
    /// for one declared but not yet set; succeeds otherwise, with the bound
    /// value.
    #[verifier::loop_isolation(false)]
    pub fn get_var(&self, ident: &str) -> (r: InterpreteResult<&Value>)
        requires
            self.wf(),
        ensures
            r matches Ok(v) ==> self@.contains_key(ident@) && self@[ident@] == Some(v@),
            r is Err ==> !self@.contains_key(ident@) || self@[ident@] is None,
    {
        let key = ident.to_owned();
        let n = self.vars.len();
        let mut i: usize = 0;
        while i < n
            invariant
                i <= n,
                n == self.vars@.len(),
                key@ == ident@,
                self.wf(),
                forall|j: int| 0 <= j < i ==> (#[trigger] self.vars@[j]).0@ != ident@,
            decreases n - i,
        {
            if self.vars[i].0 == key {
                proof {
                    Self::lemma_idx(self.vars@, ident@, i as int);
                }
                match &self.vars[i].1 {
                    Some(v) => {
                        return Ok(v);
                    },
                    None => {
                        return Err(
                            InterpretError::msg("Variable has been initialized but not set"),
                        );
                    },
                }
            }
            i = i + 1;
        }
        let mut m = "Variable has not been initialized at all: ".to_owned();
        m.append(ident);
        Err(InterpretError::from_string(m))
    }

    /// Declare a new variable, optionally with an initial value. Fails
    /// exactly when the name is already declared, leaving the environment
    /// unchanged; otherwise the environment gains the binding.
    #[verifier::loop_isolation(false)]
    pub fn create_var(&mut self, ident: String, val: Option<Value>) -> (r: InterpreteResult<()>)
        requires
            old(self).wf(),
        ensures
            final(self).wf(),
            r is Ok <==> !old(self)@.contains_key(ident@),
            r is Ok ==> final(self)@ =~= old(self)@.insert(ident@, opt_value_model(val)),
            r is Err ==> *final(self) == *old(self),
    {
        let ghost s0 = self.vars@;
        let n = self.vars.len();
        let mut i: usize = 0;
        while i < n
            invariant
                i <= n,
                n == s0.len(),
                self.vars@ == s0,
                forall|j: int| 0 <= j < i ==> (#[trigger] s0[j]).0@ != ident@,
            decreases n - i,
        {
            if self.vars[i].0 == ident {
                let mut m = "Already have a variable called: ".to_owned();
                m.append(ident.as_str());
                proof {
                    assert(env_has_key(s0, ident@));
                }
                return Err(InterpretError::from_string(m));
            }
            i = i + 1;
        }
        proof {
            assert(!env_has_key(s0, ident@));
        }
        let ghost k = ident@;
        let ghost vm = opt_value_model(val);
        self.vars.push((ident, val));
        proof {
            let s1 = self.vars@;
            assert(s1 == s0.push((ident, val)));
            assert forall|x: int, y: int|
                0 <= x < y < s1.len() implies (#[trigger] s1[x]).0@ != (#[trigger] s1[y]).0@ by {
                if y < s0.len() {
                    assert(s1[x] == s0[x] && s1[y] == s0[y]);
                } else {
                    assert(s1[x] == s0[x] && s1[y].0@ == k);
                }
            }
            assert forall|kk: Seq<char>| #![auto]
                final(self)@.contains_key(kk) <==> old(self)@.insert(k, vm).contains_key(kk) by {
                if kk == k {
                    assert(s1[s0.len() as int].0@ == k);
                    assert(env_has_key(s1, k));
                } else {
                    if env_has_key(s1, kk) {
                        let w = choose|i: int| 0 <= i < s1.len() && (#[trigger] s1[i]).0@ == kk;
                        assert(s1[w] == s0[w]);
                        assert(env_has_key(s0, kk));
                    }
                    if env_has_key(s0, kk) {
                        let w = choose|i: int| 0 <= i < s0.len() && (#[trigger] s0[i]).0@ == kk;
                        assert(s1[w] == s0[w]);
                        assert(env_has_key(s1, kk));
                    }
                }
            }
            assert forall|kk: Seq<char>| #![auto] final(self)@.contains_key(kk) implies final(self)@[kk]
                == old(self)@.insert(k, vm)[kk] by {
                if kk == k {
                    Self::lemma_idx(s1, k, s0.len() as int);
                } else {
                    let w = env_idx_of(s1, kk);
                    assert(0 <= w < s1.len() && s1[w].0@ == kk);
                    assert(s1[w] == s0[w]);
                    Self::lemma_idx(s0, kk, w);
                    Self::lemma_idx(s1, kk, w);
                }
            }
            assert(final(self)@ =~= old(self)@.insert(k, vm));
        }
        Ok(())
    }

    /// Assign to an existing variable. Fails exactly when the name was never
    /// declared, leaving the environment unchanged; otherwise the binding is
    /// replaced.
    #[verifier::loop_isolation(false)]
    pub fn set_var(&mut self, ident: String, val: Value) -> (r: InterpreteResult<()>)
        requires
            old(self).wf(),
        ensures
            final(self).wf(),
            r is Ok <==> old(self)@.contains_key(ident@),
            r is Ok ==> final(self)@ =~= old(self)@.insert(ident@, Some(val@)),
            r is Err ==> final(self).vars@ == old(self).vars@,
    {
        let ghost s0 = self.vars@;
        let ghost k = ident@;
        let ghost vm = value_view(val);
        let n = self.vars.len();
        let mut i: usize = 0;
        while i < n
            invariant
                i <= n,
                n == s0.len(),
                self.vars@ == s0,
                ident@ == k,
                forall|j: int| 0 <= j < i ==> (#[trigger] s0[j]).0@ != k,
            decreases n - i,
        {
            if self.vars[i].0 == ident {
                proof {
                    Self::lemma_idx(s0, k, i as int);
                }
                self.vars.swap_remove(i);
                let ghost s1 = self.vars@;
                self.vars.push((ident, Some(val)));
                let ghost s2 = self.vars@;
                proof {
                    assert forall|j: int| 0 <= j < s1.len() implies #[trigger] s1[j] == (if j
                        == i as int {
                        s0[s0.len() - 1]
                    } else {
                        s0[j]
                    }) by {}
                    assert forall|j: int| 0 <= j < s1.len() implies (#[trigger] s1[j]).0@ != k by {
                        if j == i as int {
                            if s0.len() - 1 != i as int {
                                assert(s0[s0.len() - 1].0@ != k);
                            }
                        }
                    }
                    assert forall|x: int, y: int|
                        0 <= x < y < s2.len() implies (#[trigger] s2[x]).0@ != (
                    #[trigger] s2[y]).0@ by {
                        if y < s1.len() {
                            let ox: int = if x == i as int {
                                s0.len() - 1
                            } else {
                                x
                            };
                            let oy: int = if y == i as int {
                                s0.len() - 1
                            } else {
                                y
                            };
                            assert(s2[x] == s0[ox] && s2[y] == s0[oy]);
                            assert(ox != oy);
                        } else {
                            assert(s2[y].0@ == k);
                            assert(s2[x] == s1[x]);
                        }
                    }
                    assert forall|kk: Seq<char>| #![auto]
                        final(self)@.contains_key(kk) <==> old(self)@.insert(
                        k,
                        Some(vm),
                    ).contains_key(kk) by {
                        if kk == k {
                            assert(s2[s1.len() as int].0@ == k);
                            assert(env_has_key(s2, k));
                            assert(env_has_key(s0, k));
                        } else {
                            if env_has_key(s2, kk) {
                                let w = choose|t: int|
                                    0 <= t < s2.len() && (#[trigger] s2[t]).0@ == kk;
                                if w < s1.len() {
                                    if w == i as int {
                                        assert(s0[s0.len() - 1].0@ == kk);
                                    } else {
                                        assert(s0[w].0@ == kk);
                                    }
                                    assert(env_has_key(s0, kk));
                                }
                            }
                            if env_has_key(s0, kk) {
                                let w = choose|t: int|
                                    0 <= t < s0.len() && (#[trigger] s0[t]).0@ == kk;
                                assert(w != i as int);
                                if w == s0.len() - 1 {
                                    assert(s2[i as int].0@ == kk);
                                } else {
                                    assert(s2[w].0@ == kk);
                                }
                                assert(env_has_key(s2, kk));
                            }
                        }
                    }
                    assert forall|kk: Seq<char>| #![auto] final(self)@.contains_key(kk) implies
                    final(self)@[kk] == old(self)@.insert(k, Some(vm))[kk] by {
                        if kk == k {
                            Self::lemma_idx(s2, k, s1.len() as int);
                        } else {
                            let w = env_idx_of(s2, kk);
                            assert(0 <= w < s2.len() && s2[w].0@ == kk);
                            assert(w < s1.len());
                            let ow: int = if w == i as int {
                                s0.len() - 1
                            } else {
                                w
                            };
                            assert(s2[w] == s0[ow]);
                            Self::lemma_idx(s0, kk, ow);
                            Self::lemma_idx(s2, kk, w);
                        }
                    }
                    assert(final(self)@ =~= old(self)@.insert(k, Some(vm)));
                }
                return Ok(());
            }
            i = i + 1;
        }
        proof {
            assert(!env_has_key(s0, k));
        }
        let mut m = "No variable exists with identifier ".to_owned();
        m.append(ident.as_str());
        Err(InterpretError::from_string(m))
    }
}

impl Default for State {
    /// An empty environment.
    fn default() -> (r: Self)
        ensures
            r.wf(),
            r@ =~= Map::<Seq<char>, Option<ValueModel>>::empty(),
    {
        State::new()
    }
}

} // verus!

verus! {

/// The kind of argument a builtin position accepts.
#[derive(Debug, PartialEq, Eq, Structural, Clone, Copy)]
pub enum ArgumentType {
    /// A runtime value (possibly read from a variable).
    Value,
    /// A written type, as in `(init x int)`.
    Type,
    /// A bare identifier to bind, as in `(set x 3)`.
    Ident,
}

/// A resolved call argument.
#[derive(Debug, PartialEq)]
pub enum Argument {
    Value(Value),
    Type(Type),
    Ident(String),
}

/// The mathematical shape of an argument.
pub enum ArgumentModel {
    Value(ValueModel),
    Type(Type),
    Ident(Seq<char>),
}

impl View for Argument {
    type V = ArgumentModel;

    open spec fn view(&self) -> ArgumentModel {
        match self {
            Argument::Value(v) => ArgumentModel::Value(value_view(*v)),
            Argument::Type(t) => ArgumentModel::Type(*t),
            Argument::Ident(s) => ArgumentModel::Ident(s@),
        }
    }
}

/// The models of an argument sequence.
pub open spec fn args_view(s: Seq<Argument>) -> Seq<ArgumentModel> {
    s.map_values(|a: Argument| a@)
}

/// The kind of an argument.
pub open spec fn spec_arg_kind(a: ArgumentModel) -> ArgumentType {
    match a {
        ArgumentModel::Value(_) => ArgumentType::Value,
        ArgumentModel::Type(_) => ArgumentType::Type,
        ArgumentModel::Ident(_) => ArgumentType::Ident,
    }
}

/// The type carried by a `Value` argument, with the abstract list marker
/// rejected (it never leaves list evaluation).
pub open spec fn spec_arg_val_type(a: ArgumentModel) -> Option<AbstractType> {
    match a {
        ArgumentModel::Value(v) => match v.ty {
            AbstractType::List => None,
            t => Some(t),
        },
        _ => None,
    }
}

impl Argument {
    /// The kind of this argument.
    pub fn get_type(&self) -> (r: ArgumentType)
        ensures
            r == spec_arg_kind(self@),
    {
        match self {
            Argument::Value(_) => ArgumentType::Value,
            Argument::Type(_) => ArgumentType::Type,
            Argument::Ident(_) => ArgumentType::Ident,
        }
    }

    /// True when this argument is a value.
    pub fn is_val(&self) -> (r: bool)
        ensures
            r == (self@ is Value),
    {
        matches!(self, Argument::Value(_))
    }

    /// The value of a `Value` argument.
    pub fn try_get_val(&self) -> (r: InterpreteResult<&Value>)
        ensures
            r matches Ok(v) ==> self@ == ArgumentModel::Value(v@),
            r is Err ==> !(self@ is Value),
    {
        if let Argument::Value(v) = self {
            Ok(v)
        } else {
            Err(InterpretError::msg("Attempted to get Value from non-Value argument"))
        }
    }

    /// The type of a `Value` argument, exactly as [`spec_arg_val_type`]
    /// says.
    pub fn try_get_val_type(&self) -> (r: InterpreteResult<AbstractType>)
        ensures
            r matches Ok(t) ==> spec_arg_val_type(self@) == Some(t),
            r is Err ==> spec_arg_val_type(self@) is None,
    {
        match self {
            Argument::Value(v) => {
                match &v.ty {
                    AbstractType::List => Err(
                        InterpretError::msg(
                            "Unexpectedly found abstract list type when parsing argument",
                        ),
                    ),
                    t => Ok(t.clone()),
                }
            },
            _ => Err(InterpretError::msg("Attempted to get Value from non-Value argument")),
        }
    }
}

} // verus!

verus! {

use super::functions::{eval_function, spec_eval_function};

/// The environment model: names to optional values.
pub type StateModel = Map<Seq<char>, Option<ValueModel>>;

/// Resolve one leaf token to a value: literals map directly, identifiers
/// read the environment (failing both for unknown and for unset names), and
/// anything else is not a value.
pub open spec fn spec_eval_leaf(t: TokenModel, st: StateModel) -> Option<ValueModel> {
    match t {
        TokenModel::NumLiteral(n) => spec_literal_value(n),
        TokenModel::CharLiteral(c) => Some(spec_char_value(c)),
        TokenModel::UnitLiteral => Some(spec_unit_value()),
        TokenModel::StringLiteral(s) => Some(spec_string_value(s)),
        TokenModel::Ident(i) => if st.contains_key(i) {
            match st[i] {
                Some(v) => Some(v),
                None => None,
            }
        } else {
            None
        },
        _ => None,
    }
}

/// Fold the coercion over the element types, starting from the first.
pub open spec fn spec_fold_type(vs: Seq<ValueModel>, i: int, acc: AbstractType) -> Option<
    AbstractType,
>
    decreases vs.len() - i,
    when 0 <= i
{
    if i >= vs.len() {
        Some(acc)
    } else {
        match spec_coerce(acc, vs[i].ty) {
            Some(t) => spec_fold_type(vs, i + 1, t),
            None => None,
        }
    }
}

/// The one concrete element type of a list: the coercion fold over all
/// element types, with a still-polymorphic numeric result resolved to
/// `Int`. An empty list, a failed fold, or a fold that stays an abstract
/// list fails.
pub open spec fn spec_check_list_type(vs: Seq<ValueModel>) -> Option<Type> {
    if vs.len() == 0 {
        None
    } else {
        match spec_fold_type(vs, 0, vs[0].ty) {
            Some(AbstractType::Number) => Some(Type::Int),
            Some(AbstractType::NegNumber) => Some(Type::Int),
            Some(AbstractType::ConcreteType(ct)) => Some(ct),
            _ => None,
        }
    }
}

/// Evaluate a `Prog` node: its single child expression.
pub open spec fn spec_eval_prog(n: NodeModel, st: StateModel) -> Option<ValueModel>
    decreases n,
{
    match n {
        NodeModel::Rule(Rule::Prog, ch) => if ch.len() == 1 {
            spec_eval_expr(ch[0], st)
        } else {
            None
        },
        _ => None,
    }
}

/// Evaluate an `Expr` node: its single body child.
pub open spec fn spec_eval_expr(n: NodeModel, st: StateModel) -> Option<ValueModel>
    decreases n,
{
    match n {
        NodeModel::Rule(Rule::Expr, ch) => if ch.len() == 1 {
            spec_eval_expr_body(ch[0], st)
        } else {
            None
        },
        _ => None,
    }
}

/// Evaluate an `ExprBody` node: a value or a function call.
pub open spec fn spec_eval_expr_body(n: NodeModel, st: StateModel) -> Option<ValueModel>
    decreases n,
{
    match n {
        NodeModel::Rule(Rule::ExprBody, ch) => if ch.len() == 1 {
            match ch[0] {
                NodeModel::Rule(Rule::Val, _) => spec_eval_val(ch[0], st),
                NodeModel::Rule(Rule::FuncCall, _) => spec_eval_func_call(ch[0], st),
                _ => None,
            }
        } else {
            None
        },
        _ => None,
    }
}

/// Evaluate a `Val` node: a leaf, a list, or a nested expression.
pub open spec fn spec_eval_val(n: NodeModel, st: StateModel) -> Option<ValueModel>
    decreases n,
{
    match n {
        NodeModel::Rule(Rule::Val, ch) => if ch.len() == 1 {
            match ch[0] {
                NodeModel::Leaf(t) => spec_eval_leaf(t, st),
                NodeModel::Rule(Rule::List, _) => spec_eval_list(ch[0], st),
                NodeModel::Rule(Rule::Expr, _) => spec_eval_expr(ch[0], st),
                _ => None,
            }
        } else {
            None
        },
        _ => None,
    }
}

/// Evaluate a `FuncCall` node: its operator leaf applied to its evaluated
/// arguments.
pub open spec fn spec_eval_func_call(n: NodeModel, st: StateModel) -> Option<ValueModel>
    decreases n,
{
    match n {
        NodeModel::Rule(Rule::FuncCall, ch) => if ch.len() == 2 {
            match ch[0] {
                NodeModel::Leaf(TokenModel::Reserved(f)) => match spec_eval_args(ch[1], st) {
                    Some(args) => spec_eval_function(f, args),
                    None => None,
                },
                _ => None,
            }
        } else {
            None
        },
        _ => None,
    }
}

/// Evaluate an `Args` spine into the argument list, linearizing the
/// right-leaning tree. The tail is evaluated before the head value, as the
/// evaluator walks the spine.
pub open spec fn spec_eval_args(n: NodeModel, st: StateModel) -> Option<Seq<ArgumentModel>>
    decreases n,
{
    match n {
        NodeModel::Rule(Rule::Args, ch) => if ch.len() == 1 {
            match ch[0] {
                NodeModel::Rule(Rule::Val, _) => match spec_eval_val(ch[0], st) {
                    Some(v) => Some(seq![ArgumentModel::Value(v)]),
                    None => None,
                },
                _ => None,
            }
        } else if ch.len() == 2 {
            match spec_eval_args(ch[1], st) {
                Some(tail) => match spec_eval_val(ch[0], st) {
                    Some(v) => Some(seq![ArgumentModel::Value(v)] + tail),
                    None => None,
                },
                None => None,
            }
        } else {
            None
        },
        _ => None,
    }
}

/// Evaluate a `List` node: its elements, then one unifying concrete element
/// type for the whole list. The elements keep their own (possibly still
/// polymorphic) types; the list is tagged with the unified type.
pub open spec fn spec_eval_list(n: NodeModel, st: StateModel) -> Option<ValueModel>
    decreases n,
{
    match n {
        NodeModel::Rule(Rule::List, ch) => if ch.len() == 1 {
            match spec_eval_list_body(ch[0], st) {
                Some(body) => match body.val {
                    ValueDataModel::List(vals) => match spec_check_list_type(vals) {
                        Some(t) => Some(
                            ValueModel {
                                ty: AbstractType::ConcreteType(Type::List(Box::new(t))),
                                val: ValueDataModel::List(vals),
                            },
                        ),
                        None => None,
                    },
                    _ => None,
                },
                None => None,
            }
        } else {
            None
        },
        _ => None,
    }
}

/// Evaluate a `ListBody` spine into a value of the abstract list type
/// holding the element values in order.
pub open spec fn spec_eval_list_body(n: NodeModel, st: StateModel) -> Option<ValueModel>
    decreases n,
{
    match n {
        NodeModel::Rule(Rule::ListBody, ch) => if ch.len() == 1 {
            match ch[0] {
                NodeModel::Rule(Rule::Val, _) => match spec_eval_val(ch[0], st) {
                    Some(v) => Some(
                        ValueModel { ty: AbstractType::List, val: ValueDataModel::List(seq![v]) },
                    ),
                    None => None,
                },
                _ => None,
            }
        } else if ch.len() == 2 {
            match spec_eval_list_body(ch[1], st) {
                Some(tail) => match tail.val {
                    ValueDataModel::List(tvals) => match spec_eval_val(ch[0], st) {
                        Some(v) => Some(
                            ValueModel {
                                ty: AbstractType::List,
                                val: ValueDataModel::List(seq![v] + tvals),
                            },
                        ),
                        None => None,
                    },
                    _ => None,
                },
                None => None,
            }
        } else {
            None
        },
        _ => None,
    }
}

} // verus!

verus! {

/// One unifying concrete element type for a list of evaluated values,
/// exactly as [`spec_check_list_type`] says.
pub fn check_list_type(vals: &Vec<Value>) -> (r: InterpreteResult<Type>)
    ensures
        r matches Ok(t) ==> spec_check_list_type(values_view(vals@)) == Some(t),
        r is Err ==> spec_check_list_type(values_view(vals@)) is None,
{
    let ghost vsm = values_view(vals@);
    proof {
        lemma_values_view_elts(vals@);
    }
    let n = vals.len();
    if n == 0 {
        return Err(InterpretError::msg("Unable to find a type for an empty list"));
    }
    let mut acc: AbstractType = vals[0].ty.clone();
    let mut i: usize = 0;
    while i < n
        invariant
            i <= n,
            n == vals@.len(),
            vsm == values_view(vals@),
            vsm.len() == n,
            forall|k: int| 0 <= k < n ==> vsm[k] == value_view(#[trigger] vals@[k]),
            spec_fold_type(vsm, 0, vsm[0].ty) == spec_fold_type(vsm, i as int, acc),
        decreases n - i,
    {
        let ghost acc0 = acc;
        match AbstractType::coerce_types(acc, vals[i].ty.clone()) {
            Ok(t) => {
                acc = t;
            },
            Err(e) => {
                proof {
                    assert(spec_coerce(acc0, vsm[i as int].ty) is None);
                    assert(spec_fold_type(vsm, i as int, acc0) is None);
                }
                return Err(e);
            },
        }
        i = i + 1;
    }
    match acc {
        AbstractType::Number => Ok(Type::Int),
        AbstractType::NegNumber => Ok(Type::Int),
        AbstractType::ConcreteType(ct) => Ok(ct),
        AbstractType::List => Err(
            InterpretError::msg("Unable to find a concrete type for the list"),
        ),
    }
}

/// Evaluate one leaf: a literal maps to its value, an identifier reads the
/// environment, and any other token is not a value.
fn eval_leaf_node(node: &Node, state: &State) -> (r: InterpreteResult<Value>)
    requires
        state.wf(),
    ensures
        r matches Ok(v) ==> (node@ matches NodeModel::Leaf(t) && spec_eval_leaf(t, state@) == Some(
            v@,
        )),
        r is Err ==> (match node@ {
            NodeModel::Leaf(t) => spec_eval_leaf(t, state@) is None,
            _ => true,
        }),
{
    match node {
        Node::Leaf(tok) => match tok {
            Token::NumLiteral(n) => Value::try_from_literal(n),
            Token::CharLiteral(c) => Ok(Value::of_char(*c)),
            Token::UnitLiteral => Ok(Value::of_unit()),
            Token::StringLiteral(s) => Ok(Value::of_string(s.as_str())),
            Token::Ident(i) => match state.get_var(i.as_str()) {
                Ok(v) => Ok(v.deep_copy()),
                Err(e) => Err(e),
            },
            _ => Err(InterpretError::msg("Expected literal or identifier")),
        },
        _ => Err(InterpretError::msg("Expected leaf node")),
    }
}

/// Evaluate a `Prog` node, exactly as [`spec_eval_prog`] says.
fn eval_prog_node(node: &Node, state: &State) -> (r: InterpreteResult<Value>)
    requires
        state.wf(),
    ensures
        r matches Ok(v) ==> spec_eval_prog(node@, state@) == Some(v@),
        r is Err ==> spec_eval_prog(node@, state@) is None,
    decreases *node,
{
    match node {
        Node::Rule(d) => {
            proof {
                super::parser::lemma_nodes_view_elts(d.children@);
            }
            if matches!(d.rule, Rule::Prog) && d.children.len() == 1 {
                eval_expr_node(&d.children[0], state)
            } else {
                Err(InterpretError::msg("Expected Prog node"))
            }
        },
        _ => Err(InterpretError::msg("Expected Prog node")),
    }
}

/// Evaluate an `Expr` node, exactly as [`spec_eval_expr`] says.
fn eval_expr_node(node: &Node, state: &State) -> (r: InterpreteResult<Value>)
    requires
        state.wf(),
    ensures
        r matches Ok(v) ==> spec_eval_expr(node@, state@) == Some(v@),
        r is Err ==> spec_eval_expr(node@, state@) is None,
    decreases *node,
{
    match node {
        Node::Rule(d) => {
            proof {
                super::parser::lemma_nodes_view_elts(d.children@);
            }
            if matches!(d.rule, Rule::Expr) && d.children.len() == 1 {
                eval_expr_body_node(&d.children[0], state)
            } else {
                Err(InterpretError::msg("Expected Expr node"))
            }
        },
        _ => Err(InterpretError::msg("Expected Expr node")),
    }
}

/// Evaluate an `ExprBody` node, exactly as [`spec_eval_expr_body`] says.
fn eval_expr_body_node(node: &Node, state: &State) -> (r: InterpreteResult<Value>)
    requires
        state.wf(),
    ensures
        r matches Ok(v) ==> spec_eval_expr_body(node@, state@) == Some(v@),
        r is Err ==> spec_eval_expr_body(node@, state@) is None,
    decreases *node,
{
    match node {
        Node::Rule(d) => {
            proof {
                super::parser::lemma_nodes_view_elts(d.children@);
            }
            if matches!(d.rule, Rule::ExprBody) && d.children.len() == 1 {
                match &d.children[0] {
                    Node::Rule(dd) => match dd.rule {
                        Rule::Val => eval_val_node(&d.children[0], state),
                        Rule::FuncCall => eval_func_call_node(&d.children[0], state),
                        _ => Err(
                            InterpretError::msg(
                                "Encountered unexpected node when evaluating expression body",
                            ),
                        ),
                    },
                    _ => Err(
                        InterpretError::msg(
                            "Encountered unexpected node when evaluating expression body",
                        ),
                    ),
                }
            } else {
                Err(InterpretError::msg("Expected ExprBody node"))
            }
        },
        _ => Err(InterpretError::msg("Expected ExprBody node")),
    }
}

/// Evaluate a `Val` node, exactly as [`spec_eval_val`] says.
fn eval_val_node(node: &Node, state: &State) -> (r: InterpreteResult<Value>)
    requires
        state.wf(),
    ensures
        r matches Ok(v) ==> spec_eval_val(node@, state@) == Some(v@),
        r is Err ==> spec_eval_val(node@, state@) is None,
    decreases *node,
{
    match node {
        Node::Rule(d) => {
            proof {
                super::parser::lemma_nodes_view_elts(d.children@);
            }
            if matches!(d.rule, Rule::Val) && d.children.len() == 1 {
                match &d.children[0] {
                    Node::Leaf(_) => eval_leaf_node(&d.children[0], state),
                    Node::Rule(dd) => match dd.rule {
                        Rule::List => eval_list_node(&d.children[0], state),
                        Rule::Expr => eval_expr_node(&d.children[0], state),
                        _ => Err(
                            InterpretError::msg("Encountered invalid node when evaluating Val"),
                        ),
                    },
                }
            } else {
                Err(InterpretError::msg("Expected Val node"))
            }
        },
        _ => Err(InterpretError::msg("Expected Val node")),
    }
}

/// Evaluate a `FuncCall` node, exactly as [`spec_eval_func_call`] says.
fn eval_func_call_node(node: &Node, state: &State) -> (r: InterpreteResult<Value>)
    requires
        state.wf(),
    ensures
        r matches Ok(v) ==> spec_eval_func_call(node@, state@) == Some(v@),
        r is Err ==> spec_eval_func_call(node@, state@) is None,
    decreases *node,
{
    match node {
        Node::Rule(d) => {
            proof {
                super::parser::lemma_nodes_view_elts(d.children@);
            }
            if matches!(d.rule, Rule::FuncCall) && d.children.len() == 2 {
                let func = match &d.children[0] {
                    Node::Leaf(Token::Reserved(f)) => *f,
                    _ => {
                        return Err(InterpretError::msg("Expected function name"));
                    },
                };
                match eval_args_node(&d.children[1], state) {
                    Ok(args) => eval_function(func, args),
                    Err(e) => Err(e),
                }
            } else {
                Err(InterpretError::msg("Expected FuncCall node"))
            }
        },
        _ => Err(InterpretError::msg("Expected FuncCall node")),
    }
}

/// Evaluate an `Args` spine into the linear argument list, exactly as
/// [`spec_eval_args`] says.
fn eval_args_node(node: &Node, state: &State) -> (r: InterpreteResult<Vec<Argument>>)
    requires
        state.wf(),
    ensures
        r matches Ok(v) ==> spec_eval_args(node@, state@) == Some(args_view(v@)),
        r is Err ==> spec_eval_args(node@, state@) is None,
    decreases *node,
{
    match node {
        Node::Rule(d) => {
            proof {
                super::parser::lemma_nodes_view_elts(d.children@);
            }
            if matches!(d.rule, Rule::Args) && d.children.len() == 1 {
                if !(&d.children[0]).is_val() {
                    return Err(InterpretError::msg("Expected Val while evaluating arguments"));
                }
                match eval_val_node(&d.children[0], state) {
                    Ok(v) => {
                        let ghost vm = v@;
                        let mut res: Vec<Argument> = Vec::new();
                        res.push(Argument::Value(v));
                        proof {
                            assert(args_view(res@) =~= seq![ArgumentModel::Value(vm)]);
                        }
                        Ok(res)
                    },
                    Err(e) => Err(e),
                }
            } else if matches!(d.rule, Rule::Args) && d.children.len() == 2 {
                let mut tail = match eval_args_node(&d.children[1], state) {
                    Ok(t) => t,
                    Err(e) => {
                        return Err(e);
                    },
                };
                let ghost tm = args_view(tail@);
                let v = match eval_val_node(&d.children[0], state) {
                    Ok(v) => v,
                    Err(e) => {
                        return Err(e);
                    },
                };
                let ghost vm = v@;
                let mut res: Vec<Argument> = Vec::new();
                res.push(Argument::Value(v));
                res.append(&mut tail);
                proof {
                    assert(args_view(res@) =~= seq![ArgumentModel::Value(vm)] + tm);
                }
                Ok(res)
            } else {
                Err(InterpretError::msg("Expected Args node"))
            }
        },
        _ => Err(InterpretError::msg("Expected Args node")),
    }
}

/// Evaluate a `List` node, exactly as [`spec_eval_list`] says.
fn eval_list_node(node: &Node, state: &State) -> (r: InterpreteResult<Value>)
    requires
        state.wf(),
    ensures
        r matches Ok(v) ==> spec_eval_list(node@, state@) == Some(v@),
        r is Err ==> spec_eval_list(node@, state@) is None,
    decreases *node,
{
    match node {
        Node::Rule(d) => {
            proof {
                super::parser::lemma_nodes_view_elts(d.children@);
            }
            if matches!(d.rule, Rule::List) && d.children.len() == 1 {
                match eval_list_body_node(&d.children[0], state) {
                    Ok(body) => match body {
                        Value { val: ValueData::List(vals), .. } => {
                            match check_list_type(&vals) {
                                Ok(t) => Ok(
                                    Value {
                                        ty: AbstractType::ConcreteType(Type::List(Box::new(t))),
                                        val: ValueData::List(vals),
                                    },
                                ),
                                Err(e) => Err(e),
                            }
                        },
                        _ => Err(InterpretError::msg("Malformed ListBody result")),
                    },
                    Err(e) => Err(e),
                }
            } else {
                Err(InterpretError::msg("Expected List node"))
            }
        },
        _ => Err(InterpretError::msg("Expected List node")),
    }
}

/// Evaluate a `ListBody` spine into a value of the abstract list type
/// holding the element values in order, exactly as
/// [`spec_eval_list_body`] says.
fn eval_list_body_node(node: &Node, state: &State) -> (r: InterpreteResult<Value>)
    requires
        state.wf(),
    ensures
        r matches Ok(v) ==> spec_eval_list_body(node@, state@) == Some(v@),
        r is Err ==> spec_eval_list_body(node@, state@) is None,
    decreases *node,
{
    match node {
        Node::Rule(d) => {
            proof {
                super::parser::lemma_nodes_view_elts(d.children@);
            }
            if matches!(d.rule, Rule::ListBody) && d.children.len() == 1 {
                if !(&d.children[0]).is_val() {
                    return Err(InterpretError::msg("Expected Val while evaluating a list"));
                }
                match eval_val_node(&d.children[0], state) {
                    Ok(v) => {
                        let ghost vm = v@;
                        let mut elems: Vec<Value> = Vec::new();
                        elems.push(v);
                        proof {
                            assert(values_view(elems@) =~= seq![vm]) by {
                                lemma_values_view_elts(elems@);
                            }
                        }
                        Ok(Value { ty: AbstractType::List, val: ValueData::List(elems) })
                    },
                    Err(e) => Err(e),
                }
            } else if matches!(d.rule, Rule::ListBody) && d.children.len() == 2 {
                let tail = match eval_list_body_node(&d.children[1], state) {
                    Ok(t) => t,
                    Err(e) => {
                        return Err(e);
                    },
                };
                match tail {
                    Value { val: ValueData::List(mut tvals), .. } => {
                        let ghost tv0 = tvals@;
                        let ghost tvm = values_view(tvals@);
                        let v = match eval_val_node(&d.children[0], state) {
                            Ok(v) => v,
                            Err(e) => {
                                return Err(e);
                            },
                        };
                        let ghost vm = v@;
                        let mut elems: Vec<Value> = Vec::new();
                        elems.push(v);
                        elems.append(&mut tvals);
                        proof {
                            assert(values_view(elems@) =~= seq![vm] + tvm) by {
                                lemma_values_view_elts(elems@);
                                lemma_values_view_elts(tv0);
                                assert forall|k: int| 0 <= k < elems@.len() implies values_view(
                                    elems@,
                                )[k] == (seq![vm] + tvm)[k] by {
                                    if k > 0 {
                                        assert(elems@[k] == tv0[k - 1]);
                                    }
                                }
                            }
                        }
                        Ok(Value { ty: AbstractType::List, val: ValueData::List(elems) })
                    },
                    _ => Err(InterpretError::msg("Malformed ListBody result")),
                }
            } else {
                Err(InterpretError::msg("Expected ListBody node"))
            }
        },
        _ => Err(InterpretError::msg("Expected ListBody node")),
    }
}

/// Evaluate a whole program tree with a fresh, empty environment, exactly
/// as [`spec_eval_prog`] says.
pub fn eval(node: Node) -> (r: InterpreteResult<Value>)
    ensures
        r matches Ok(v) ==> spec_eval_prog(node@, Map::empty()) == Some(v@),
        r is Err ==> spec_eval_prog(node@, Map::empty()) is None,
{
    let state = State::new();
    eval_prog_node(&node, &state)
}

} // verus!

verus! {

use super::lexer::{
    all_digits, digits_val, lemma_negative_number_tokens, lemma_plain_number_tokens, tok_scan,
};

/// A valid numeric literal string without suffix, fraction or sign
/// tokenizes to a single numeric literal whose resolution is the
/// polymorphic `Number` holding its value.
pub proof fn lemma_plain_literal_resolves_to_number(s: Seq<char>)
    requires
        s.len() >= 1,
        all_digits(s),
        digits_val(s) <= u64::MAX,
    ensures
        tok_scan(s, 0) matches Some(ts) && ts.len() == 2 && (ts[0] matches
            TokenModel::NumLiteral(lit) && spec_literal_value(lit) == Some(
            ValueModel {
                ty: AbstractType::Number,
                val: ValueDataModel::Number(digits_val(s) as u64),
            },
        )),
{
    lemma_plain_number_tokens(s);
}

/// The same literal with a leading minus (not followed by a space)
/// tokenizes to a single numeric literal whose resolution is the
/// polymorphic `NegNumber` holding the negated value.
pub proof fn lemma_negative_literal_resolves_to_negnumber(s: Seq<char>)
    requires
        s.len() >= 2,
        s[0] == '-',
        all_digits(s.subrange(1, s.len() as int)),
        digits_val(s.subrange(1, s.len() as int)) <= 0x8000_0000_0000_0000u64,
    ensures
        tok_scan(s, 0) matches Some(ts) && ts.len() == 2 && (ts[0] matches
            TokenModel::NumLiteral(lit) && spec_literal_value(lit) == Some(
            ValueModel {
                ty: AbstractType::NegNumber,
                val: ValueDataModel::NegNumber(
                    (-(digits_val(s.subrange(1, s.len() as int)) as int)) as i64,
                ),
            },
        )),
{
    lemma_negative_number_tokens(s);
}

} // verus!
