//! The tokenizer: a single left-to-right scan turning raw characters into a
//! token sequence. The scan is specified by the recursive functions
//! [`tok_scan`] and its helpers, which the executable code is proved to match
//! exactly: `tokenize` returns `Ok` precisely when the specification scan
//! succeeds, and then returns exactly the specified tokens.

use crate::error::{InterpretError, InterpreteResult};
use vstd::prelude::*;
use vstd::string::{StrSliceExecFns, StringExecFns};
use vstd::utf8::is_ascii_chars;

verus! {

/// The suffix letter of a numeric literal: `u`, `f` or `c`, or none.
#[derive(Debug, PartialEq, Eq, Structural, Clone, Copy)]
pub enum LiteralSuffix {
    Empty,
    Unsigned,
    Float,
    Char,
}

impl LiteralSuffix {
    /// The suffix denoted by a suffix character. Only `c`, `u` and `f` are
    /// suffix characters.
    pub fn from_char(value: char) -> (r: InterpreteResult<LiteralSuffix>)
        ensures
            value == 'c' ==> r == Ok::<_, InterpretError>(LiteralSuffix::Char),
            value == 'u' ==> r == Ok::<_, InterpretError>(LiteralSuffix::Unsigned),
            value == 'f' ==> r == Ok::<_, InterpretError>(LiteralSuffix::Float),
            value != 'c' && value != 'u' && value != 'f' ==> r is Err,
    {
        match value {
            'c' => Ok(LiteralSuffix::Char),
            'u' => Ok(LiteralSuffix::Unsigned),
            'f' => Ok(LiteralSuffix::Float),
            _ => Err(InterpretError::msg(
                "Attempted to convert invalid char to LiteralSuffix",
            )),
        }
    }
}

/// A scanned numeric literal. `dec_part` holds the fraction digits read as a
/// plain integer and `dec_len` how many fraction digits were read, so that
/// `1.05` and `1.5` stay distinguishable.
#[derive(Debug, PartialEq, Eq, Structural, Clone, Copy)]
pub struct NumLiteral {
    pub negative: bool,
    pub int_part: u64,
    pub float: bool,
    pub dec_part: u64,
    pub dec_len: u64,
    pub suffix: LiteralSuffix,
}

/// The number of decimal digits in the usual rendering of `n` (so 1 for 0).
pub open spec fn spec_digit_count(n: nat) -> nat
    decreases n,
{
    if n < 10 {
        1
    } else {
        1 + spec_digit_count(n / 10)
    }
}

impl NumLiteral {
    /// An unsuffixed integer literal.
    pub fn new_int(int_part: u64, negative: bool) -> (r: Self)
        ensures
            r == (NumLiteral {
                negative,
                int_part,
                float: false,
                dec_part: 0,
                dec_len: 0,
                suffix: LiteralSuffix::Empty,
            }),
    {
        NumLiteral {
            int_part,
            negative,
            suffix: LiteralSuffix::Empty,
            dec_part: 0,
            dec_len: 0,
            float: false,
        }
    }

    /// An integer literal carrying the suffix character `suffix`, which must
    /// be one of `c`, `u`, `f`.
    pub fn new_int_with_suffix(int_part: u64, negative: bool, suffix: char) -> (r:
        InterpreteResult<Self>)
        ensures
            (suffix == 'c' || suffix == 'u' || suffix == 'f') <==> r is Ok,
            r matches Ok(lit) ==> lit == (NumLiteral {
                negative,
                int_part,
                float: false,
                dec_part: 0,
                dec_len: 0,
                suffix: spec_suffix_of_char(suffix),
            }),
    {
        let sfx = LiteralSuffix::from_char(suffix)?;
        Ok(NumLiteral {
            int_part,
            negative,
            suffix: sfx,
            dec_part: 0,
            dec_len: 0,
            float: false,
        })
    }

    /// An unsuffixed float literal; the fraction-digit count is taken from the
    /// decimal rendering of `dec_part`.
    pub fn new_float(int_part: u64, dec_part: u64, negative: bool) -> (r: Self)
        ensures
            r == (NumLiteral {
                negative,
                int_part,
                float: true,
                dec_part,
                dec_len: spec_digit_count(dec_part as nat) as u64,
                suffix: LiteralSuffix::Empty,
            }),
    {
        NumLiteral {
            int_part,
            dec_part,
            dec_len: digit_count(dec_part),
            negative,
            float: true,
            suffix: LiteralSuffix::Empty,
        }
    }

    /// A float literal carrying the suffix character `suffix`, which must be
    /// one of `c`, `u`, `f`.
    pub fn new_float_with_suffix(int_part: u64, dec_part: u64, negative: bool, suffix: char) -> (r:
        InterpreteResult<Self>)
        ensures
            (suffix == 'c' || suffix == 'u' || suffix == 'f') <==> r is Ok,
            r matches Ok(lit) ==> lit == (NumLiteral {
                negative,
                int_part,
                float: true,
                dec_part,
                dec_len: spec_digit_count(dec_part as nat) as u64,
                suffix: spec_suffix_of_char(suffix),
            }),
    {
        let sfx = LiteralSuffix::from_char(suffix)?;
        Ok(NumLiteral {
            int_part,
            dec_part,
            dec_len: digit_count(dec_part),
            negative,
            float: true,
            suffix: sfx,
        })
    }
}

/// The suffix denoted by a suffix character, as a specification value.
pub open spec fn spec_suffix_of_char(c: char) -> LiteralSuffix {
    if c == 'c' {
        LiteralSuffix::Char
    } else if c == 'u' {
        LiteralSuffix::Unsigned
    } else if c == 'f' {
        LiteralSuffix::Float
    } else {
        LiteralSuffix::Empty
    }
}

/// Count the decimal digits of `n` (1 for 0).
pub fn digit_count(n: u64) -> (r: u64)
    ensures
        r == spec_digit_count(n as nat),
{
    let mut m: u64 = n;
    let mut count: u64 = 1;
    proof {
        lemma_digit_count_max(n as nat);
    }
    while m >= 10
        invariant
            spec_digit_count(n as nat) == spec_digit_count(m as nat) + count - 1,
            count >= 1,
            spec_digit_count(n as nat) <= 20,
            m <= n,
        decreases m,
    {
        m = m / 10;
        count = count + 1;
        proof {
            lemma_digit_count_bound(m as nat);
        }
    }
    count
}

proof fn lemma_digit_count_bound(n: nat)
    ensures
        spec_digit_count(n) >= 1,
    decreases n,
{
    if n >= 10 {
        lemma_digit_count_bound(n / 10);
    }
}

/// Ten to the `k`.
pub open spec fn pow10(k: nat) -> nat
    decreases k,
{
    if k == 0 {
        1
    } else {
        10 * pow10((k - 1) as nat)
    }
}

proof fn lemma_digit_count_pow(n: nat, k: nat)
    requires
        k >= 1,
        n < pow10(k),
    ensures
        spec_digit_count(n) <= k,
    decreases n,
{
    if n >= 10 {
        assert(pow10(k) == 10 * pow10((k - 1) as nat));
        assert(n / 10 < pow10((k - 1) as nat));
        lemma_digit_count_pow(n / 10, (k - 1) as nat);
    }
}

proof fn lemma_digit_count_max(n: nat)
    requires
        n <= u64::MAX,
    ensures
        spec_digit_count(n) <= 20,
{
    reveal_with_fuel(pow10, 21);
    assert(pow10(20) > u64::MAX);
    lemma_digit_count_pow(n, 20);
}

/// The reserved operator keywords of the language.
#[derive(Debug, PartialEq, Eq, Structural, Clone, Copy)]
pub enum ReservedIdent {
    Add,
    Sub,
    Div,
    Mul,
    Write,
    Read,
    If,
    While,
    Eq,
    Neq,
    Leq,
    Geq,
    Lt,
    Gt,
    And,
    Or,
    SetVar,
    Init,
    Def,
    Concat,
    Prepend,
    Take,
    Split,
    Eval,
    ToString,
}

/// The reserved operator named by `s`, if any.
pub open spec fn spec_reserved_of(s: Seq<char>) -> Option<ReservedIdent> {
    if s == "add"@ {
        Some(ReservedIdent::Add)
    } else if s == "sub"@ {
        Some(ReservedIdent::Sub)
    } else if s == "div"@ {
        Some(ReservedIdent::Div)
    } else if s == "mul"@ {
        Some(ReservedIdent::Mul)
    } else if s == "write"@ {
        Some(ReservedIdent::Write)
    } else if s == "read"@ {
        Some(ReservedIdent::Read)
    } else if s == "if"@ {
        Some(ReservedIdent::If)
    } else if s == "while"@ {
        Some(ReservedIdent::While)
    } else if s == "eq"@ {
        Some(ReservedIdent::Eq)
    } else if s == "neq"@ {
        Some(ReservedIdent::Neq)
    } else if s == "leq"@ {
        Some(ReservedIdent::Leq)
    } else if s == "geq"@ {
        Some(ReservedIdent::Geq)
    } else if s == "lt"@ {
        Some(ReservedIdent::Lt)
    } else if s == "gt"@ {
        Some(ReservedIdent::Gt)
    } else if s == "and"@ {
        Some(ReservedIdent::And)
    } else if s == "or"@ {
        Some(ReservedIdent::Or)
    } else if s == "set"@ {
        Some(ReservedIdent::SetVar)
    } else if s == "init"@ {
        Some(ReservedIdent::Init)
    } else if s == "def"@ {
        Some(ReservedIdent::Def)
    } else if s == "concat"@ {
        Some(ReservedIdent::Concat)
    } else if s == "prepend"@ {
        Some(ReservedIdent::Prepend)
    } else if s == "take"@ {
        Some(ReservedIdent::Take)
    } else if s == "split"@ {
        Some(ReservedIdent::Split)
    } else if s == "eval"@ {
        Some(ReservedIdent::Eval)
    } else if s == "tostring"@ {
        Some(ReservedIdent::ToString)
    } else {
        None
    }
}

impl ReservedIdent {
    /// Classify a keyword string as a reserved operator.
    pub fn try_from_str(value: &str) -> (r: InterpreteResult<ReservedIdent>)
        ensures
            r matches Ok(op) ==> spec_reserved_of(value@) == Some(op),
            r is Err ==> spec_reserved_of(value@) is None,
    {
        let v = value.to_owned();
        let r = if string_eq_lit(&v, "add") {
            Ok(ReservedIdent::Add)
        } else if string_eq_lit(&v, "sub") {
            Ok(ReservedIdent::Sub)
        } else if string_eq_lit(&v, "div") {
            Ok(ReservedIdent::Div)
        } else if string_eq_lit(&v, "mul") {
            Ok(ReservedIdent::Mul)
        } else if string_eq_lit(&v, "write") {
            Ok(ReservedIdent::Write)
        } else if string_eq_lit(&v, "read") {
            Ok(ReservedIdent::Read)
        } else if string_eq_lit(&v, "if") {
            Ok(ReservedIdent::If)
        } else if string_eq_lit(&v, "while") {
            Ok(ReservedIdent::While)
        } else if string_eq_lit(&v, "eq") {
            Ok(ReservedIdent::Eq)
        } else if string_eq_lit(&v, "neq") {
            Ok(ReservedIdent::Neq)
        } else if string_eq_lit(&v, "leq") {
            Ok(ReservedIdent::Leq)
        } else if string_eq_lit(&v, "geq") {
            Ok(ReservedIdent::Geq)
        } else if string_eq_lit(&v, "lt") {
            Ok(ReservedIdent::Lt)
        } else if string_eq_lit(&v, "gt") {
            Ok(ReservedIdent::Gt)
        } else if string_eq_lit(&v, "and") {
            Ok(ReservedIdent::And)
        } else if string_eq_lit(&v, "or") {
            Ok(ReservedIdent::Or)
        } else if string_eq_lit(&v, "set") {
            Ok(ReservedIdent::SetVar)
        } else if string_eq_lit(&v, "init") {
            Ok(ReservedIdent::Init)
        } else if string_eq_lit(&v, "def") {
            Ok(ReservedIdent::Def)
        } else if string_eq_lit(&v, "concat") {
            Ok(ReservedIdent::Concat)
        } else if string_eq_lit(&v, "prepend") {
            Ok(ReservedIdent::Prepend)
        } else if string_eq_lit(&v, "take") {
            Ok(ReservedIdent::Take)
        } else if string_eq_lit(&v, "split") {
            Ok(ReservedIdent::Split)
        } else if string_eq_lit(&v, "eval") {
            Ok(ReservedIdent::Eval)
        } else if string_eq_lit(&v, "tostring") {
            Ok(ReservedIdent::ToString)
        } else {
            Err(InterpretError::msg("Not a valid reserved identifier"))
        };
        r
    }
}

/// True when the string equals the literal, stated over views.
fn string_eq_lit(s: &String, lit: &str) -> (r: bool)
    ensures
        r == (s@ == lit@),
{
    let l = lit.to_owned();
    *s == l
}

/// The concrete types of the language.
#[derive(Debug, PartialEq, Eq)]
pub enum Type {
    Int,
    UInt,
    Float,
    List(Box<Type>),
    Tuple(Box<Type>, Box<Type>),
    Unit,
    Char,
    Bool,
}

/// The concrete type named by `s`, if any. Nested `list<...>` names are
/// resolved recursively; `tuple<...>` names are not part of the accepted
/// written grammar and yield `None`.
pub open spec fn spec_type_of(s: Seq<char>) -> Option<Type>
    decreases s.len(),
{
    if s == "int"@ {
        Some(Type::Int)
    } else if s == "uint"@ {
        Some(Type::UInt)
    } else if s == "float"@ {
        Some(Type::Float)
    } else if s == "unit"@ {
        Some(Type::Unit)
    } else if s == "char"@ {
        Some(Type::Char)
    } else if s == "bool"@ {
        Some(Type::Bool)
    } else if s.len() >= 6 && s.subrange(0, 5) == "list<"@ && s[s.len() - 1] == '>' {
        match spec_type_of(s.subrange(5, s.len() - 1)) {
            Some(t) => Some(Type::List(Box::new(t))),
            None => None,
        }
    } else {
        None
    }
}

impl Clone for Type {
    /// A deep copy that is provably equal to the source.
    fn clone(&self) -> (r: Self)
        ensures
            r == self,
    {
        self.deep_copy()
    }
}

impl Type {
    /// A deep copy that is provably equal to the source.
    pub fn deep_copy(&self) -> (r: Type)
        ensures
            r == self,
        decreases *self,
    {
        match self {
            Type::Int => Type::Int,
            Type::UInt => Type::UInt,
            Type::Float => Type::Float,
            Type::Unit => Type::Unit,
            Type::Char => Type::Char,
            Type::Bool => Type::Bool,
            Type::List(t) => Type::List(Box::new(t.deep_copy())),
            Type::Tuple(a, b) => Type::Tuple(Box::new(a.deep_copy()), Box::new(b.deep_copy())),
        }
    }
}

/// Exact equality of two types, usable from executable code.
pub fn type_eq(a: &Type, b: &Type) -> (r: bool)
    ensures
        r == (a == b),
    decreases *a,
{
    match (a, b) {
        (Type::Int, Type::Int) => true,
        (Type::UInt, Type::UInt) => true,
        (Type::Float, Type::Float) => true,
        (Type::Unit, Type::Unit) => true,
        (Type::Char, Type::Char) => true,
        (Type::Bool, Type::Bool) => true,
        (Type::List(x), Type::List(y)) => type_eq(x, y),
        (Type::Tuple(x1, x2), Type::Tuple(y1, y2)) => type_eq(x1, y1) && type_eq(x2, y2),
        _ => false,
    }
}

} // verus!

verus! {

/// A token of the surface syntax.
#[derive(Debug, PartialEq, Eq)]
pub enum Token {
    NumLiteral(NumLiteral),
    CharLiteral(u8),
    UnitLiteral,
    StringLiteral(String),
    Ident(String),
    Type(Type),
    Reserved(ReservedIdent),
    LParen,
    RParen,
    LBrack,
    RBrack,
    EOF,
}

/// The mathematical shape of a token: strings are plain character sequences.
pub enum TokenModel {
    NumLiteral(NumLiteral),
    CharLiteral(u8),
    UnitLiteral,
    StringLiteral(Seq<char>),
    Ident(Seq<char>),
    Type(Type),
    Reserved(ReservedIdent),
    LParen,
    RParen,
    LBrack,
    RBrack,
    EOF,
}

impl View for Token {
    type V = TokenModel;

    open spec fn view(&self) -> TokenModel {
        match self {
            Token::NumLiteral(n) => TokenModel::NumLiteral(*n),
            Token::CharLiteral(c) => TokenModel::CharLiteral(*c),
            Token::UnitLiteral => TokenModel::UnitLiteral,
            Token::StringLiteral(s) => TokenModel::StringLiteral(s@),
            Token::Ident(s) => TokenModel::Ident(s@),
            Token::Type(t) => TokenModel::Type(*t),
            Token::Reserved(r) => TokenModel::Reserved(*r),
            Token::LParen => TokenModel::LParen,
            Token::RParen => TokenModel::RParen,
            Token::LBrack => TokenModel::LBrack,
            Token::RBrack => TokenModel::RBrack,
            Token::EOF => TokenModel::EOF,
        }
    }
}

impl Clone for Token {
    /// A copy that is provably equal to the source.
    fn clone(&self) -> (r: Self)
        ensures
            r == self,
    {
        match self {
            Token::NumLiteral(n) => Token::NumLiteral(*n),
            Token::CharLiteral(c) => Token::CharLiteral(*c),
            Token::UnitLiteral => Token::UnitLiteral,
            Token::StringLiteral(s) => Token::StringLiteral(s.clone()),
            Token::Ident(s) => Token::Ident(s.clone()),
            Token::Type(t) => Token::Type(t.deep_copy()),
            Token::Reserved(r) => Token::Reserved(*r),
            Token::LParen => Token::LParen,
            Token::RParen => Token::RParen,
            Token::LBrack => Token::LBrack,
            Token::RBrack => Token::RBrack,
            Token::EOF => Token::EOF,
        }
    }
}

/// True when `c` is an ASCII decimal digit.
pub open spec fn is_digit(c: char) -> bool {
    48 <= c as u32 && c as u32 <= 57
}

/// The numeric value of a digit character.
pub open spec fn digit_val(c: char) -> u64 {
    (c as u32 - 48) as u64
}

/// True when `c` is an ASCII letter.
pub open spec fn is_letter(c: char) -> bool {
    (65 <= c as u32 && c as u32 <= 90) || (97 <= c as u32 && c as u32 <= 122)
}

/// True when `c` may continue an identifier (letters and digits).
pub open spec fn is_ident_char(c: char) -> bool {
    is_letter(c) || is_digit(c)
}

/// True when `c` is one of the angle brackets that force a type name.
pub open spec fn is_angle(c: char) -> bool {
    c == '<' || c == '>'
}

/// Scan the remaining digits, fraction dot and suffix of a numeric literal
/// whose first digit has already been read into `lit`. `None` means a digit
/// would overflow the literal's 64-bit parts.
pub open spec fn scan_num_tail(s: Seq<char>, i: int, lit: NumLiteral) -> Option<(NumLiteral, int)>
    decreases s.len() - i,
    when 0 <= i
{
    if i >= s.len() {
        Some((lit, i))
    } else {
        let c = s[i];
        if is_digit(c) {
            if lit.float {
                if lit.dec_part * 10 + digit_val(c) > u64::MAX {
                    None
                } else {
                    scan_num_tail(
                        s,
                        i + 1,
                        NumLiteral {
                            dec_part: (lit.dec_part * 10 + digit_val(c)) as u64,
                            dec_len: (lit.dec_len + 1) as u64,
                            ..lit
                        },
                    )
                }
            } else {
                if lit.int_part * 10 + digit_val(c) > u64::MAX {
                    None
                } else {
                    scan_num_tail(
                        s,
                        i + 1,
                        NumLiteral { int_part: (lit.int_part * 10 + digit_val(c)) as u64, ..lit },
                    )
                }
            }
        } else if c == '.' {
            scan_num_tail(s, i + 1, NumLiteral { float: true, ..lit })
        } else if c == 'u' {
            Some((NumLiteral { suffix: LiteralSuffix::Unsigned, ..lit }, i + 1))
        } else if c == 'f' {
            Some((NumLiteral { suffix: LiteralSuffix::Float, ..lit }, i + 1))
        } else if c == 'c' {
            Some((NumLiteral { suffix: LiteralSuffix::Char, ..lit }, i + 1))
        } else {
            Some((lit, i))
        }
    }
}

/// Scan a numeric literal starting at `i`: an optional leading minus must be
/// followed by at least one digit.
pub open spec fn scan_num(s: Seq<char>, i: int) -> Option<(NumLiteral, int)> {
    let neg = i < s.len() && s[i] == '-';
    let j = if neg {
        i + 1
    } else {
        i
    };
    if j < s.len() && is_digit(s[j]) {
        scan_num_tail(
            s,
            j + 1,
            NumLiteral {
                negative: neg,
                int_part: digit_val(s[j]),
                float: false,
                dec_part: 0,
                dec_len: 0,
                suffix: LiteralSuffix::Empty,
            },
        )
    } else {
        None
    }
}

/// A char literal is exactly three characters: quote, body, quote. No escape
/// sequences exist, so `'''` is a quote character literal.
pub open spec fn scan_char_lit(s: Seq<char>, i: int) -> Option<(u8, int)> {
    if i + 2 < s.len() && s[i + 2] == '\'' {
        Some(((s[i + 1] as u8), i + 3))
    } else {
        None
    }
}

/// The position of the next double quote at or after `j`, if any.
pub open spec fn find_quote(s: Seq<char>, j: int) -> Option<int>
    decreases s.len() - j,
    when 0 <= j
{
    if j >= s.len() {
        None
    } else if s[j] == '"' {
        Some(j)
    } else {
        find_quote(s, j + 1)
    }
}

/// Scan a string literal whose opening quote stands at `i`; the body runs
/// verbatim to the next quote.
pub open spec fn scan_string(s: Seq<char>, i: int) -> Option<(Seq<char>, int)> {
    match find_quote(s, i + 1) {
        Some(q) => Some((s.subrange(i + 1, q), q + 1)),
        None => None,
    }
}

/// Scan identifier characters starting at `i`, accumulating into `acc`;
/// an angle bracket forces classification as a type name. Reaching the end of
/// the input while scanning is a lexing failure.
pub open spec fn scan_ident(s: Seq<char>, i: int, acc: Seq<char>, forced: bool) -> Option<
    (Seq<char>, bool, int),
>
    decreases s.len() - i,
    when 0 <= i
{
    if i >= s.len() {
        None
    } else if is_ident_char(s[i]) {
        scan_ident(s, i + 1, acc.push(s[i]), forced)
    } else if is_angle(s[i]) {
        scan_ident(s, i + 1, acc.push(s[i]), true)
    } else {
        Some((acc, forced, i))
    }
}

/// Classify a scanned identifier, in priority order, as a type name, a
/// reserved operator, or a user identifier. A name containing angle brackets
/// must be a type name.
pub open spec fn classify_ident(cs: Seq<char>, forced: bool) -> Option<TokenModel> {
    if forced {
        match spec_type_of(cs) {
            Some(t) => Some(TokenModel::Type(t)),
            None => None,
        }
    } else {
        match spec_type_of(cs) {
            Some(t) => Some(TokenModel::Type(t)),
            None => match spec_reserved_of(cs) {
                Some(op) => Some(TokenModel::Reserved(op)),
                None => Some(TokenModel::Ident(cs)),
            },
        }
    }
}

/// Prepend one token to an optional remainder of the scan.
pub open spec fn tok_cons(t: TokenModel, rest: Option<Seq<TokenModel>>) -> Option<Seq<TokenModel>> {
    match rest {
        Some(r) => Some(seq![t] + r),
        None => None,
    }
}

proof fn lemma_scan_num_tail_bounds(s: Seq<char>, i: int, lit: NumLiteral)
    requires
        0 <= i <= s.len(),
    ensures
        scan_num_tail(s, i, lit) matches Some((l, j)) ==> i <= j <= s.len(),
    decreases s.len() - i,
{
    if i < s.len() {
        let c = s[i];
        if is_digit(c) {
            if lit.float {
                if lit.dec_part * 10 + digit_val(c) <= u64::MAX {
                    lemma_scan_num_tail_bounds(
                        s,
                        i + 1,
                        NumLiteral {
                            dec_part: (lit.dec_part * 10 + digit_val(c)) as u64,
                            dec_len: (lit.dec_len + 1) as u64,
                            ..lit
                        },
                    );
                }
            } else {
                if lit.int_part * 10 + digit_val(c) <= u64::MAX {
                    lemma_scan_num_tail_bounds(
                        s,
                        i + 1,
                        NumLiteral { int_part: (lit.int_part * 10 + digit_val(c)) as u64, ..lit },
                    );
                }
            }
        } else if c == '.' {
            lemma_scan_num_tail_bounds(s, i + 1, NumLiteral { float: true, ..lit });
        }
    }
}

proof fn lemma_scan_num_bounds(s: Seq<char>, i: int)
    requires
        0 <= i,
    ensures
        scan_num(s, i) matches Some((l, j)) ==> i + 1 <= j <= s.len(),
{
    let neg = i < s.len() && s[i] == '-';
    let j0 = if neg {
        i + 1
    } else {
        i
    };
    if j0 < s.len() && is_digit(s[j0]) {
        lemma_scan_num_tail_bounds(
            s,
            j0 + 1,
            NumLiteral {
                negative: neg,
                int_part: digit_val(s[j0]),
                float: false,
                dec_part: 0,
                dec_len: 0,
                suffix: LiteralSuffix::Empty,
            },
        );
    }
}

proof fn lemma_find_quote_bounds(s: Seq<char>, j: int)
    requires
        0 <= j,
    ensures
        find_quote(s, j) matches Some(q) ==> j <= q < s.len() && s[q] == '"',
    decreases s.len() - j,
{
    if j < s.len() && s[j] != '"' {
        lemma_find_quote_bounds(s, j + 1);
    }
}

proof fn lemma_scan_ident_bounds(s: Seq<char>, i: int, acc: Seq<char>, forced: bool)
    requires
        0 <= i,
    ensures
        scan_ident(s, i, acc, forced) matches Some((cs, f, j)) ==> i <= j <= s.len(),
    decreases s.len() - i,
{
    if i < s.len() && (is_ident_char(s[i]) || is_angle(s[i])) {
        if is_ident_char(s[i]) {
            lemma_scan_ident_bounds(s, i + 1, acc.push(s[i]), forced);
        } else {
            lemma_scan_ident_bounds(s, i + 1, acc.push(s[i]), true);
        }
    }
}

/// The full left-to-right scan from position `i`: the token sequence of the
/// rest of the input (ending in `EOF`), or `None` on a lexing failure.
pub open spec fn tok_scan(s: Seq<char>, i: int) -> Option<Seq<TokenModel>>
    decreases s.len() - i,
    when 0 <= i
    via tok_scan_dec
{
    if i >= s.len() {
        Some(seq![TokenModel::EOF])
    } else {
        let c = s[i];
        if c == '+' {
            tok_cons(TokenModel::Reserved(ReservedIdent::Add), tok_scan(s, i + 1))
        } else if c == '/' {
            tok_cons(TokenModel::Reserved(ReservedIdent::Div), tok_scan(s, i + 1))
        } else if c == '*' {
            tok_cons(TokenModel::Reserved(ReservedIdent::Mul), tok_scan(s, i + 1))
        } else if c == '(' {
            if i + 1 < s.len() {
                if s[i + 1] == ')' {
                    tok_cons(TokenModel::UnitLiteral, tok_scan(s, i + 2))
                } else {
                    tok_cons(TokenModel::LParen, tok_scan(s, i + 1))
                }
            } else {
                None
            }
        } else if c == ')' {
            tok_cons(TokenModel::RParen, tok_scan(s, i + 1))
        } else if c == '[' {
            tok_cons(TokenModel::LBrack, tok_scan(s, i + 1))
        } else if c == ']' {
            tok_cons(TokenModel::RBrack, tok_scan(s, i + 1))
        } else if is_digit(c) {
            match scan_num(s, i) {
                Some((lit, j)) => tok_cons(TokenModel::NumLiteral(lit), tok_scan(s, j)),
                None => None,
            }
        } else if c == '\'' {
            match scan_char_lit(s, i) {
                Some((b, j)) => tok_cons(TokenModel::CharLiteral(b), tok_scan(s, j)),
                None => None,
            }
        } else if c == '"' {
            match scan_string(s, i) {
                Some((body, j)) => tok_cons(TokenModel::StringLiteral(body), tok_scan(s, j)),
                None => None,
            }
        } else if c == '-' {
            if i + 1 >= s.len() {
                None
            } else if s[i + 1] == ' ' {
                tok_cons(TokenModel::Reserved(ReservedIdent::Sub), tok_scan(s, i + 1))
            } else {
                match scan_num(s, i) {
                    Some((lit, j)) => tok_cons(TokenModel::NumLiteral(lit), tok_scan(s, j)),
                    None => None,
                }
            }
        } else if is_letter(c) {
            match scan_ident(s, i, Seq::empty(), false) {
                Some((cs, forced, j)) => match classify_ident(cs, forced) {
                    Some(tm) => tok_cons(tm, tok_scan(s, j)),
                    None => None,
                },
                None => None,
            }
        } else if c == ' ' {
            tok_scan(s, i + 1)
        } else {
            None
        }
    }
}

#[via_fn]
proof fn tok_scan_dec(s: Seq<char>, i: int) {
    lemma_scan_num_bounds(s, i);
    lemma_find_quote_bounds(s, i + 1);
    if 0 <= i < s.len() && is_letter(s[i]) {
        lemma_scan_ident_strict(s, i, Seq::empty(), false);
    }
}

proof fn lemma_scan_ident_strict(s: Seq<char>, i: int, acc: Seq<char>, forced: bool)
    requires
        0 <= i < s.len(),
        is_ident_char(s[i]) || is_angle(s[i]),
    ensures
        scan_ident(s, i, acc, forced) matches Some((cs, f, j)) ==> i + 1 <= j <= s.len(),
{
    if is_ident_char(s[i]) {
        lemma_scan_ident_bounds(s, i + 1, acc.push(s[i]), forced);
    } else {
        lemma_scan_ident_bounds(s, i + 1, acc.push(s[i]), true);
    }
}

/// The ASCII-only portion of the raw input, in order.
pub open spec fn ascii_filter(s: Seq<char>) -> Seq<char> {
    s.filter(|c: char| (c as u32) < 128)
}

/// The views of a token sequence.
pub open spec fn toks_view(ts: Seq<Token>) -> Seq<TokenModel> {
    ts.map_values(|t: Token| t@)
}

} // verus!

verus! {

/// Relies on `String::from_iter`: collecting characters yields the string of
/// exactly those characters, in order.
#[verifier::external_body]
fn chars_to_string(v: Vec<char>) -> (r: String)
    ensures
        r@ == v@,
{
    v.into_iter().collect()
}

/// The digit value of `c`, when `c` is an ASCII digit.
fn char_digit(c: char) -> (r: Option<u64>)
    ensures
        r == (if is_digit(c) {
            Some(digit_val(c))
        } else {
            None::<u64>
        }),
{
    let u = c as u32;
    if 48 <= u && u <= 57 {
        Some((u - 48) as u64)
    } else {
        None
    }
}

/// Scan one numeric literal beginning at `start`, returning the literal and
/// the position just past it.
fn handle_num_literal(input: &Vec<char>, start: usize) -> (r: InterpreteResult<(NumLiteral, usize)>)
    requires
        start < input@.len(),
    ensures
        r matches Ok((lit, j)) ==> scan_num(input@, start as int) == Some((lit, j as int)) && start
            < j <= input@.len(),
        r is Err ==> scan_num(input@, start as int) is None,
{
    let ghost s = input@;
    let n = input.len();
    let mut i = start;
    let negative = input[i] == '-';
    if negative {
        i = i + 1;
    }
    if i >= n {
        return Err(InterpretError::msg("Unexpected char while parsing number"));
    }
    let first = match char_digit(input[i]) {
        Some(d) => d,
        None => {
            return Err(InterpretError::msg("Unexpected char while parsing number"));
        },
    };
    let mut lit = NumLiteral {
        negative,
        int_part: first,
        float: false,
        dec_part: 0,
        dec_len: 0,
        suffix: LiteralSuffix::Empty,
    };
    i = i + 1;
    proof {
        assert(scan_num(s, start as int) == scan_num_tail(s, i as int, lit));
    }
    loop
        invariant
            start < i <= s.len(),
            input@ == s,
            lit.dec_len <= i,
            scan_num(s, start as int) == scan_num_tail(s, i as int, lit),
        decreases s.len() - i,
    {
        if i >= input.len() {
            return Ok((lit, i));
        }
        let c = input[i];
        match char_digit(c) {
            Some(d) => {
                if lit.float {
                    let scaled = match lit.dec_part.checked_mul(10) {
                        Some(x) => x,
                        None => {
                            return Err(InterpretError::msg("Numeric literal is too large"));
                        },
                    };
                    let dec = match scaled.checked_add(d) {
                        Some(x) => x,
                        None => {
                            return Err(InterpretError::msg("Numeric literal is too large"));
                        },
                    };
                    lit = NumLiteral { dec_part: dec, dec_len: lit.dec_len + 1, ..lit };
                } else {
                    let scaled = match lit.int_part.checked_mul(10) {
                        Some(x) => x,
                        None => {
                            return Err(InterpretError::msg("Numeric literal is too large"));
                        },
                    };
                    let ip = match scaled.checked_add(d) {
                        Some(x) => x,
                        None => {
                            return Err(InterpretError::msg("Numeric literal is too large"));
                        },
                    };
                    lit = NumLiteral { int_part: ip, ..lit };
                }
                i = i + 1;
            },
            None => {
                if c == '.' {
                    lit = NumLiteral { float: true, ..lit };
                    i = i + 1;
                } else if c == 'u' {
                    return Ok((NumLiteral { suffix: LiteralSuffix::Unsigned, ..lit }, i + 1));
                } else if c == 'f' {
                    return Ok((NumLiteral { suffix: LiteralSuffix::Float, ..lit }, i + 1));
                } else if c == 'c' {
                    return Ok((NumLiteral { suffix: LiteralSuffix::Char, ..lit }, i + 1));
                } else {
                    return Ok((lit, i));
                }
            },
        }
    }
}

/// Scan one char literal beginning at the opening quote at `start`.
fn handle_char_literal(input: &Vec<char>, start: usize) -> (r: InterpreteResult<u8>)
    requires
        start < input@.len(),
        forall|k: int| 0 <= k < input@.len() ==> ((#[trigger] input@[k]) as u32) < 128,
    ensures
        r matches Ok(b) ==> scan_char_lit(input@, start as int) == Some((b, start + 3 as int)),
        r is Err ==> scan_char_lit(input@, start as int) is None,
{
    if input.len() >= 3 && start < input.len() - 2 {
        if input[start + 2] == '\'' {
            let c = input[start + 1];
            proof {
                assert((c as u32) < 128);
            }
            Ok(c as u8)
        } else {
            Err(InterpretError::msg("Did not find closing ' where expected"))
        }
    } else {
        Err(InterpretError::msg(
            "Reached end of input unexpectedly while parsing a char literal",
        ))
    }
}

/// Scan one string literal beginning at the opening quote at `start`; the
/// body is taken verbatim, with no escape sequences.
fn handle_string_literal(input: &Vec<char>, start: usize) -> (r: InterpreteResult<(String, usize)>)
    requires
        start < input@.len(),
    ensures
        r matches Ok((st, j)) ==> {
            &&& scan_string(input@, start as int) matches Some((body, jj))
            &&& st@ == body
            &&& j == jj
        },
        r is Err ==> scan_string(input@, start as int) is None,
{
    let ghost s = input@;
    let n = input.len();
    let mut body: Vec<char> = Vec::new();
    let mut cur = start + 1;
    loop
        invariant
            start + 1 <= cur <= s.len(),
            input@ == s,
            find_quote(s, start + 1 as int) == find_quote(s, cur as int),
            body@ =~= s.subrange(start + 1 as int, cur as int),
        decreases s.len() - cur,
    {
        if cur >= input.len() {
            return Err(InterpretError::msg(
                "Unexpectedly reached end of input while parsing a string literal",
            ));
        }
        let c = input[cur];
        if c == '"' {
            let st = chars_to_string(body);
            return Ok((st, cur + 1));
        }
        body.push(c);
        proof {
            assert(body@ =~= s.subrange(start + 1 as int, cur + 1 as int));
        }
        cur = cur + 1;
    }
}

} // verus!

verus! {

proof fn lemma_type_of_ascii(s: Seq<char>)
    ensures
        spec_type_of(s) is Some ==> is_ascii_chars(s),
    decreases s.len(),
{
    if spec_type_of(s) is Some {
        if s == "int"@ {
            reveal_strlit("int");
            assert(is_ascii_chars(s));
        } else if s == "uint"@ {
            reveal_strlit("uint");
            assert(is_ascii_chars(s));
        } else if s == "float"@ {
            reveal_strlit("float");
            assert(is_ascii_chars(s));
        } else if s == "unit"@ {
            reveal_strlit("unit");
            assert(is_ascii_chars(s));
        } else if s == "char"@ {
            reveal_strlit("char");
            assert(is_ascii_chars(s));
        } else if s == "bool"@ {
            reveal_strlit("bool");
            assert(is_ascii_chars(s));
        } else {
            let inner = s.subrange(5, s.len() - 1);
            lemma_type_of_ascii(inner);
            assert forall|i: int| 0 <= i < s.len() implies '\0' <= #[trigger] s[i] <= '\u{7f}' by {
                reveal_strlit("list<");
                if i < 5 {
                    assert(s[i] == "list<"@[i]);
                } else if i < s.len() - 1 {
                    assert(s[i] == inner[i - 5]);
                } else {
                    assert(s[i] == '>');
                }
            }
        }
    }
}

impl Type {
    /// Classify a written type name, resolving nested `list<...>` names
    /// recursively.
    pub fn try_from_str(value: &str) -> (r: InterpreteResult<Type>)
        ensures
            r matches Ok(t) ==> spec_type_of(value@) == Some(t),
            r is Err ==> spec_type_of(value@) is None,
        decreases value@.len(),
    {
        if !value.is_ascii() {
            proof {
                lemma_type_of_ascii(value@);
            }
            return Err(InterpretError::msg("Unable to convert non-ascii value to Type"));
        }
        let v = value.to_owned();
        if string_eq_lit(&v, "int") {
            Ok(Type::Int)
        } else if string_eq_lit(&v, "uint") {
            Ok(Type::UInt)
        } else if string_eq_lit(&v, "float") {
            Ok(Type::Float)
        } else if string_eq_lit(&v, "unit") {
            Ok(Type::Unit)
        } else if string_eq_lit(&v, "char") {
            Ok(Type::Char)
        } else if string_eq_lit(&v, "bool") {
            Ok(Type::Bool)
        } else {
            let n = value.unicode_len();
            if n >= 6 {
                let prefix = value.substring_ascii(0, 5).to_owned();
                let last = value.get_char(n - 1);
                if string_eq_lit(&prefix, "list<") && last == '>' {
                    let inner = value.substring_ascii(5, n - 1);
                    match Type::try_from_str(inner) {
                        Ok(t) => Ok(Type::List(Box::new(t))),
                        Err(_) => Err(InterpretError::msg("Unable to parse subtype of list")),
                    }
                } else {
                    Err(InterpretError::msg("Invalid type"))
                }
            } else {
                Err(InterpretError::msg("Invalid type"))
            }
        }
    }
}

/// Scan one identifier beginning at `start` and classify it as a type name,
/// a reserved operator, or a user identifier.
fn handle_identifier(input: &Vec<char>, start: usize) -> (r: InterpreteResult<(Token, usize)>)
    requires
        start < input@.len(),
    ensures
        (match scan_ident(input@, start as int, Seq::empty(), false) {
            Some((cs, forced, j)) => match classify_ident(cs, forced) {
                Some(tm) => {
                    &&& r matches Ok(p)
                    &&& r matches Ok(p) ==> p.0@ == tm && p.1 == j
                },
                None => r is Err,
            },
            None => r is Err,
        }),
{
    let ghost s = input@;
    let n = input.len();
    let mut chars: Vec<char> = Vec::new();
    let mut forced = false;
    let mut i = start;
    loop
        invariant
            start <= i <= n,
            n == s.len(),
            input@ == s,
            scan_ident(s, start as int, Seq::empty(), false) == scan_ident(
                s,
                i as int,
                chars@,
                forced,
            ),
        decreases s.len() - i,
    {
        if i >= n {
            return Err(InterpretError::msg(
                "Unexpectedly reached end of input while parsing an identifier",
            ));
        }
        let c = input[i];
        let u = c as u32;
        if (65 <= u && u <= 90) || (97 <= u && u <= 122) || (48 <= u && u <= 57) {
            chars.push(c);
            i = i + 1;
        } else if c == '<' || c == '>' {
            chars.push(c);
            forced = true;
            i = i + 1;
        } else {
            return classify_collected(chars, forced, i);
        }
    }
}

/// Turn a fully scanned identifier into its token, in priority order: type
/// name, reserved operator, user identifier.
fn classify_collected(chars: Vec<char>, forced: bool, pos: usize) -> (r: InterpreteResult<
    (Token, usize),
>)
    ensures
        (match classify_ident(chars@, forced) {
            Some(tm) => {
                &&& r matches Ok(p)
                &&& r matches Ok(p) ==> p.0@ == tm && p.1 == pos
            },
            None => r is Err,
        }),
{
    let ident = chars_to_string(chars);
    if forced {
        match Type::try_from_str(ident.as_str()) {
            Ok(t) => Ok((Token::Type(t), pos)),
            Err(e) => Err(e),
        }
    } else {
        match Type::try_from_str(ident.as_str()) {
            Ok(t) => Ok((Token::Type(t), pos)),
            Err(_) => match ReservedIdent::try_from_str(ident.as_str()) {
                Ok(rsv) => Ok((Token::Reserved(rsv), pos)),
                Err(_) => Ok((Token::Ident(ident), pos)),
            },
        }
    }
}

/// Prepend an already-produced token prefix to an optional scan remainder.
pub open spec fn tok_prepend(p: Seq<TokenModel>, o: Option<Seq<TokenModel>>) -> Option<
    Seq<TokenModel>,
> {
    match o {
        Some(r) => Some(p + r),
        None => None,
    }
}

proof fn lemma_prepend_step(p: Seq<TokenModel>, t: TokenModel, rest: Option<Seq<TokenModel>>)
    ensures
        tok_prepend(p, tok_cons(t, rest)) == tok_prepend(p.push(t), rest),
{
    match rest {
        Some(r) => {
            assert(p + (seq![t] + r) =~= p.push(t) + r);
        },
        None => {},
    }
}

} // verus!

verus! {

/// Push one token, tracked at the level of token models.
fn push_tok(res: &mut Vec<Token>, t: Token)
    ensures
        toks_view(final(res)@) == toks_view(old(res)@).push(t@),
{
    let ghost r0 = res@;
    let ghost tm = t@;
    res.push(t);
    proof {
        assert(toks_view(res@) =~= toks_view(r0).push(tm));
    }
}

#[verifier::rlimit(60)]
fn tok_step(filtered: &Vec<char>, res: &mut Vec<Token>, i: usize) -> (r: InterpreteResult<
        usize,
    >)
        requires
            i < filtered@.len(),
            forall|k: int| 0 <= k < filtered@.len() ==> ((#[trigger] filtered@[k]) as u32) < 128,
        ensures
            r matches Ok(j) ==> i < j <= filtered@.len(),
            r matches Ok(j) ==> tok_prepend(
                toks_view(old(res)@),
                tok_scan(filtered@, i as int),
            ) == tok_prepend(toks_view(final(res)@), tok_scan(filtered@, j as int)),
            r is Err ==> tok_scan(filtered@, i as int) is None,
    {
        let ghost s = filtered@;
        let n = filtered.len();
        let ghost p = toks_view(res@);
        let c = filtered[i];
        let u = c as u32;
        if c == '+' {
            push_tok(res, Token::Reserved(ReservedIdent::Add));
            proof {
                lemma_prepend_step(p, TokenModel::Reserved(ReservedIdent::Add), tok_scan(s, i + 1));
            }
            return Ok(i + 1);
        } else if c == '/' {
            push_tok(res, Token::Reserved(ReservedIdent::Div));
            proof {
                lemma_prepend_step(p, TokenModel::Reserved(ReservedIdent::Div), tok_scan(s, i + 1));
            }
            return Ok(i + 1);
        } else if c == '*' {
            push_tok(res, Token::Reserved(ReservedIdent::Mul));
            proof {
                lemma_prepend_step(p, TokenModel::Reserved(ReservedIdent::Mul), tok_scan(s, i + 1));
            }
            return Ok(i + 1);
        } else if c == '(' {
            if i + 1 < n {
                if filtered[i + 1] == ')' {
                    push_tok(res, Token::UnitLiteral);
                    proof {
                        lemma_prepend_step(p, TokenModel::UnitLiteral, tok_scan(s, i + 2));
                    }
                    return Ok(i + 2);
                } else {
                    push_tok(res, Token::LParen);
                    proof {
                        lemma_prepend_step(p, TokenModel::LParen, tok_scan(s, i + 1));
                    }
                    return Ok(i + 1);
                }
            } else {
                return Err(InterpretError::msg("Unexpectedly reached end of input"));
            }
        } else if c == ')' {
            push_tok(res, Token::RParen);
            proof {
                lemma_prepend_step(p, TokenModel::RParen, tok_scan(s, i + 1));
            }
            return Ok(i + 1);
        } else if c == '[' {
            push_tok(res, Token::LBrack);
            proof {
                lemma_prepend_step(p, TokenModel::LBrack, tok_scan(s, i + 1));
            }
            return Ok(i + 1);
        } else if c == ']' {
            push_tok(res, Token::RBrack);
            proof {
                lemma_prepend_step(p, TokenModel::RBrack, tok_scan(s, i + 1));
            }
            return Ok(i + 1);
        } else if 48 <= u && u <= 57 {
            match handle_num_literal(&filtered, i) {
                Ok((lit, j)) => {
                    push_tok(res, Token::NumLiteral(lit));
                    proof {
                        lemma_prepend_step(p, TokenModel::NumLiteral(lit), tok_scan(s, j as int));
                    }
                    return Ok(j);
                },
                Err(e) => {
                    proof {
                        assert(tok_scan(s, i as int) is None);
                    }
                    return Err(e);
                },
            }
        } else if c == '\'' {
            match handle_char_literal(&filtered, i) {
                Ok(b) => {
                    push_tok(res, Token::CharLiteral(b));
                    proof {
                        lemma_prepend_step(p, TokenModel::CharLiteral(b), tok_scan(s, i + 3));
                    }
                    return Ok(i + 3);
                },
                Err(e) => {
                    proof {
                        assert(tok_scan(s, i as int) is None);
                    }
                    return Err(e);
                },
            }
        } else if c == '"' {
            match handle_string_literal(&filtered, i) {
                Ok((st, j)) => {
                    proof {
                        lemma_find_quote_bounds(s, i + 1);
                    }
                    let ghost tm = TokenModel::StringLiteral(st@);
                    push_tok(res, Token::StringLiteral(st));
                    proof {
                        lemma_prepend_step(p, tm, tok_scan(s, j as int));
                    }
                    return Ok(j);
                },
                Err(e) => {
                    proof {
                        assert(tok_scan(s, i as int) is None);
                    }
                    return Err(e);
                },
            }
        } else if c == '-' {
            if i + 1 >= n {
                return Err(InterpretError::msg("Unexpectedly reached end of input"));
            }
            if filtered[i + 1] == ' ' {
                push_tok(res, Token::Reserved(ReservedIdent::Sub));
                proof {
                    lemma_prepend_step(
                        p,
                        TokenModel::Reserved(ReservedIdent::Sub),
                        tok_scan(s, i + 1),
                    );
                }
                return Ok(i + 1);
            } else {
                match handle_num_literal(&filtered, i) {
                    Ok((lit, j)) => {
                        push_tok(res, Token::NumLiteral(lit));
                        proof {
                            lemma_prepend_step(
                                p,
                                TokenModel::NumLiteral(lit),
                                tok_scan(s, j as int),
                            );
                        }
                        return Ok(j);
                    },
                    Err(e) => {
                        proof {
                            assert(tok_scan(s, i as int) is None);
                        }
                        return Err(e);
                    },
                }
            }
        } else if (65 <= u && u <= 90) || (97 <= u && u <= 122) {
            match handle_identifier(&filtered, i) {
                Ok((tok, j)) => {
                    proof {
                        lemma_scan_ident_strict(s, i as int, Seq::empty(), false);
                    }
                    let ghost tm = tok@;
                    push_tok(res, tok);
                    proof {
                        lemma_prepend_step(p, tm, tok_scan(s, j as int));
                    }
                    return Ok(j);
                },
                Err(e) => {
                    proof {
                        assert(tok_scan(s, i as int) is None);
                    }
                    return Err(e);
                },
            }
        } else if c == ' ' {
            proof {
                assert(tok_scan(s, i as int) == tok_scan(s, i + 1 as int));
            }
            return Ok(i + 1);
        } else {
            let mut m = "Haven't implemented the char ".to_owned();
            let cs = chars_to_string(vec![c]);
            m.append(cs.as_str());
            return Err(InterpretError::from_string(m));
        }
    }

/// Tokenize a raw character sequence. Non-ASCII characters are dropped up
/// front; the result is exactly the token sequence of the specification scan
/// [`tok_scan`] over the remaining characters, and an error exactly when that
/// scan fails.
pub fn tokenize(input: Vec<char>) -> (r: InterpreteResult<Vec<Token>>)
    ensures
        r matches Ok(ts) ==> tok_scan(ascii_filter(input@), 0) == Some(toks_view(ts@)),
        r is Err ==> tok_scan(ascii_filter(input@), 0) is None,
{
    let ghost orig = input@;
    let mut filtered: Vec<char> = Vec::new();
    let mut k: usize = 0;
    while k < input.len()
        invariant
            k <= orig.len(),
            input@ == orig,
            filtered@ =~= orig.take(k as int).filter(|c: char| (c as u32) < 128),
        decreases orig.len() - k,
    {
        let c = input[k];
        proof {
            reveal(Seq::filter);
            assert(orig.take(k + 1 as int).drop_last() =~= orig.take(k as int));
            assert(orig.take(k + 1 as int).last() == orig[k as int]);
        }
        if (c as u32) < 128 {
            filtered.push(c);
        }
        proof {
            assert(filtered@ =~= orig.take(k + 1 as int).filter(|c: char| (c as u32) < 128));
        }
        k = k + 1;
    }
    proof {
        assert(orig.take(orig.len() as int) =~= orig);
        assert(filtered@ =~= ascii_filter(orig));
    }
    let ghost s = filtered@;
    let n = filtered.len();
    let mut res: Vec<Token> = Vec::new();
    let mut i: usize = 0;
    proof {
        assert(toks_view(res@) =~= Seq::<TokenModel>::empty());
        match tok_scan(s, 0) {
            Some(r0) => {
                assert(Seq::<TokenModel>::empty() + r0 =~= r0);
            },
            None => {},
        }
    }
    while i < n
        invariant
            i <= n,
            n == s.len(),
            filtered@ == s,
            s == ascii_filter(input@),
            forall|k: int| 0 <= k < s.len() ==> ((#[trigger] s[k]) as u32) < 128,
            tok_scan(s, 0) == tok_prepend(toks_view(res@), tok_scan(s, i as int)),
        decreases n - i,
    {
        match tok_step(&filtered, &mut res, i) {
            Ok(j) => {
                i = j;
            },
            Err(e) => {
                proof {
                    assert(tok_scan(s, i as int) is None);
                    assert(tok_prepend(toks_view(res@), tok_scan(s, i as int)) is None);
                    assert(tok_scan(ascii_filter(input@), 0) is None);
                }
                return Err(e);
            },
        }
    }
    let ghost p = toks_view(res@);
    push_tok(&mut res, Token::EOF);
    proof {
        assert(tok_scan(s, i as int) == Some(seq![TokenModel::EOF]));
        assert(p + seq![TokenModel::EOF] =~= p.push(TokenModel::EOF));
    }
    Ok(res)
}

} // verus!

verus! {

/// The numeric value of a digit string.
pub open spec fn digits_val(s: Seq<char>) -> nat
    decreases s.len(),
{
    if s.len() == 0 {
        0
    } else {
        digits_val(s.drop_last()) * 10 + digit_val(s.last()) as nat
    }
}

/// True when every character of `s` is a decimal digit.
pub open spec fn all_digits(s: Seq<char>) -> bool {
    forall|k: int| 0 <= k < s.len() ==> is_digit(#[trigger] s[k])
}

proof fn lemma_digits_val_split(s: Seq<char>)
    requires
        s.len() >= 1,
    ensures
        digits_val(s) == digit_val(s[0]) * pow10((s.len() - 1) as nat) + digits_val(
            s.subrange(1, s.len() as int),
        ),
    decreases s.len(),
{
    let tail = s.subrange(1, s.len() as int);
    if s.len() == 1 {
        assert(s.drop_last() =~= Seq::<char>::empty());
        assert(tail =~= Seq::<char>::empty());
        assert(digits_val(Seq::<char>::empty()) == 0);
        assert(pow10(0) == 1);
        assert(digit_val(s[0]) * 1 == digit_val(s[0]));
    } else {
        let front = s.drop_last();
        lemma_digits_val_split(front);
        assert(tail.drop_last() =~= front.subrange(1, front.len() as int));
        assert(tail.last() == s.last());
        assert(front[0] == s[0]);
        let m = (front.len() - 1) as nat;
        let d0 = digit_val(s[0]) as nat;
        let vfront_tail = digits_val(front.subrange(1, front.len() as int));
        assert(digits_val(front) == d0 * pow10(m) + vfront_tail);
        assert(digits_val(s) == digits_val(front) * 10 + digit_val(s.last()));
        assert(digits_val(tail) == vfront_tail * 10 + digit_val(tail.last()));
        assert(pow10((m + 1) as nat) == 10 * pow10(m));
        assert(digits_val(s) == d0 * pow10((m + 1) as nat) + digits_val(tail)) by (nonlinear_arith)
            requires
                digits_val(s) == digits_val(front) * 10 + digit_val(s.last()) as nat,
                digits_val(front) == d0 * pow10(m) + vfront_tail,
                digits_val(tail) == vfront_tail * 10 + digit_val(tail.last()) as nat,
                pow10((m + 1) as nat) == 10 * pow10(m),
                tail.last() == s.last(),
        ;
        assert(s.len() - 1 == m + 1);
    }
}

proof fn lemma_scan_digits_exact(s: Seq<char>, i: int, lit: NumLiteral)
    requires
        0 <= i <= s.len(),
        !lit.float,
        lit.suffix == LiteralSuffix::Empty,
        forall|k: int| i <= k < s.len() ==> is_digit(#[trigger] s[k]),
        lit.int_part * pow10((s.len() - i) as nat) + digits_val(s.subrange(i, s.len() as int))
            <= u64::MAX,
    ensures
        scan_num_tail(s, i, lit) == Some(
            (
                NumLiteral {
                    int_part: (lit.int_part * pow10((s.len() - i) as nat) + digits_val(
                        s.subrange(i, s.len() as int),
                    )) as u64,
                    ..lit
                },
                s.len() as int,
            ),
        ),
    decreases s.len() - i,
{
    let rest = s.subrange(i, s.len() as int);
    if i == s.len() {
        assert(rest =~= Seq::empty());
        assert(pow10(0) == 1);
        assert(lit.int_part * 1 == lit.int_part) by (nonlinear_arith);
        assert(NumLiteral { int_part: lit.int_part, ..lit } == lit);
    } else {
        let c = s[i];
        let d = digit_val(c) as nat;
        let m = (s.len() - i - 1) as nat;
        let tail = s.subrange(i + 1, s.len() as int);
        lemma_digits_val_split(rest);
        assert(rest[0] == c);
        assert(rest.subrange(1, rest.len() as int) =~= tail);
        assert(digits_val(rest) == d * pow10(m) + digits_val(tail));
        // The total bound implies no step overflows.
        let total = lit.int_part * pow10((s.len() - i) as nat) + digits_val(rest);
        assert(pow10((s.len() - i) as nat) == 10 * pow10(m));
        let stepped = (lit.int_part * 10 + d) as nat;
        assert(stepped * pow10(m) + digits_val(tail) == total) by (nonlinear_arith)
            requires
                total == lit.int_part * (10 * pow10(m)) + d * pow10(m) + digits_val(tail),
                stepped == lit.int_part * 10 + d,
        ;
        lemma_pow10_pos(m);
        assert(stepped <= stepped * pow10(m)) by (nonlinear_arith)
            requires
                pow10(m) >= 1,
        ;
        let lit2 = NumLiteral { int_part: stepped as u64, ..lit };
        lemma_scan_digits_exact(s, i + 1, lit2);
    }
}

proof fn lemma_pow10_pos(k: nat)
    ensures
        pow10(k) >= 1,
    decreases k,
{
    if k > 0 {
        lemma_pow10_pos((k - 1) as nat);
    }
}

/// A digit-only literal string scans to a single unsuffixed, non-negative,
/// non-float numeric literal holding its value, followed by end of input.
pub proof fn lemma_plain_number_tokens(s: Seq<char>)
    requires
        s.len() >= 1,
        all_digits(s),
        digits_val(s) <= u64::MAX,
    ensures
        tok_scan(s, 0) == Some(
            seq![
                TokenModel::NumLiteral(
                    NumLiteral {
                        negative: false,
                        int_part: digits_val(s) as u64,
                        float: false,
                        dec_part: 0,
                        dec_len: 0,
                        suffix: LiteralSuffix::Empty,
                    },
                ),
                TokenModel::EOF,
            ],
        ),
{
    let c = s[0];
    let lit0 = NumLiteral {
        negative: false,
        int_part: digit_val(c),
        float: false,
        dec_part: 0,
        dec_len: 0,
        suffix: LiteralSuffix::Empty,
    };
    lemma_digits_val_split(s);
    let tail = s.subrange(1, s.len() as int);
    assert(digits_val(s) == digit_val(c) * pow10((s.len() - 1) as nat) + digits_val(tail));
    lemma_scan_digits_exact(s, 1, lit0);
    assert(scan_num(s, 0) == Some(
        (NumLiteral { int_part: digits_val(s) as u64, ..lit0 }, s.len() as int),
    ));
    assert(tok_scan(s, s.len() as int) == Some(seq![TokenModel::EOF]));
    assert(seq![TokenModel::NumLiteral(NumLiteral { int_part: digits_val(s) as u64, ..lit0 })]
        + seq![TokenModel::EOF] =~= seq![
        TokenModel::NumLiteral(NumLiteral { int_part: digits_val(s) as u64, ..lit0 }),
        TokenModel::EOF,
    ]);
}

/// A digit string with a leading minus scans to the same literal marked
/// negative.
pub proof fn lemma_negative_number_tokens(s: Seq<char>)
    requires
        s.len() >= 2,
        s[0] == '-',
        all_digits(s.subrange(1, s.len() as int)),
        digits_val(s.subrange(1, s.len() as int)) <= u64::MAX,
    ensures
        tok_scan(s, 0) == Some(
            seq![
                TokenModel::NumLiteral(
                    NumLiteral {
                        negative: true,
                        int_part: digits_val(s.subrange(1, s.len() as int)) as u64,
                        float: false,
                        dec_part: 0,
                        dec_len: 0,
                        suffix: LiteralSuffix::Empty,
                    },
                ),
                TokenModel::EOF,
            ],
        ),
{
    let digits = s.subrange(1, s.len() as int);
    let c = s[1];
    assert(c == digits[0]);
    assert(is_digit(c));
    let lit0 = NumLiteral {
        negative: true,
        int_part: digit_val(c),
        float: false,
        dec_part: 0,
        dec_len: 0,
        suffix: LiteralSuffix::Empty,
    };
    lemma_digits_val_split(digits);
    assert(digits.subrange(1, digits.len() as int) =~= s.subrange(2, s.len() as int));
    assert forall|k: int| 2 <= k < s.len() implies is_digit(#[trigger] s[k]) by {
        assert(s[k] == digits[k - 1]);
    }
    lemma_scan_digits_exact(s, 2, lit0);
    assert(s.subrange(2, s.len() as int) =~= digits.subrange(1, digits.len() as int));
    assert(scan_num(s, 0) == Some(
        (NumLiteral { int_part: digits_val(digits) as u64, ..lit0 }, s.len() as int),
    ));
    assert(tok_scan(s, s.len() as int) == Some(seq![TokenModel::EOF]));
    assert(seq![TokenModel::NumLiteral(NumLiteral { int_part: digits_val(digits) as u64, ..lit0 })]
        + seq![TokenModel::EOF] =~= seq![
        TokenModel::NumLiteral(NumLiteral { int_part: digits_val(digits) as u64, ..lit0 }),
        TokenModel::EOF,
    ]);
}

} // verus!

verus! {

/// Pointwise agreement of `s1` from `i1` with `s2` from `i2`, to the end.
pub open spec fn suffix_agree(s1: Seq<char>, i1: int, s2: Seq<char>, i2: int) -> bool {
    &&& 0 <= i1 <= s1.len()
    &&& 0 <= i2 <= s2.len()
    &&& s1.len() - i1 == s2.len() - i2
    &&& forall|d: int| 0 <= d < s1.len() - i1 ==> #[trigger] s1[i1 + d] == s2[i2 + d]
}

proof fn lemma_scan_num_tail_cong(s1: Seq<char>, i1: int, s2: Seq<char>, i2: int, lit: NumLiteral)
    requires
        suffix_agree(s1, i1, s2, i2),
    ensures
        match (scan_num_tail(s1, i1, lit), scan_num_tail(s2, i2, lit)) {
            (Some((l1, j1)), Some((l2, j2))) => l1 == l2 && j1 - i1 == j2 - i2,
            (Option::None, Option::None) => true,
            _ => false,
        },
    decreases s1.len() - i1,
{
    if i1 < s1.len() {
        assert(s1[i1 + 0] == s2[i2 + 0]);
        assert forall|d: int| 0 <= d < s1.len() - (i1 + 1) implies #[trigger] s1[i1 + 1 + d] == s2[i2 + 1
            + d] by {
            assert(s1[i1 + (d + 1)] == s2[i2 + (d + 1)]);
        }
        let c = s1[i1];
        if is_digit(c) {
            if lit.float {
                if lit.dec_part * 10 + digit_val(c) <= u64::MAX {
                    lemma_scan_num_tail_cong(
                        s1,
                        i1 + 1,
                        s2,
                        i2 + 1,
                        NumLiteral {
                            dec_part: (lit.dec_part * 10 + digit_val(c)) as u64,
                            dec_len: (lit.dec_len + 1) as u64,
                            ..lit
                        },
                    );
                }
            } else {
                if lit.int_part * 10 + digit_val(c) <= u64::MAX {
                    lemma_scan_num_tail_cong(
                        s1,
                        i1 + 1,
                        s2,
                        i2 + 1,
                        NumLiteral { int_part: (lit.int_part * 10 + digit_val(c)) as u64, ..lit },
                    );
                }
            }
        } else if c == '.' {
            lemma_scan_num_tail_cong(s1, i1 + 1, s2, i2 + 1, NumLiteral { float: true, ..lit });
        }
    }
}

proof fn lemma_scan_num_cong(s1: Seq<char>, i1: int, s2: Seq<char>, i2: int)
    requires
        suffix_agree(s1, i1, s2, i2),
    ensures
        match (scan_num(s1, i1), scan_num(s2, i2)) {
            (Some((l1, j1)), Some((l2, j2))) => l1 == l2 && j1 - i1 == j2 - i2,
            (Option::None, Option::None) => true,
            _ => false,
        },
{
    if i1 < s1.len() {
        assert(s1[i1 + 0] == s2[i2 + 0]);
    }
    let neg = i1 < s1.len() && s1[i1] == '-';
    let j1 = if neg {
        i1 + 1
    } else {
        i1
    };
    let j2 = if neg {
        i2 + 1
    } else {
        i2
    };
    if j1 < s1.len() {
        assert(s1[i1 + (j1 - i1)] == s2[i2 + (j1 - i1)]);
    }
    if j1 < s1.len() && is_digit(s1[j1]) {
        let lit0 = NumLiteral {
            negative: neg,
            int_part: digit_val(s1[j1]),
            float: false,
            dec_part: 0,
            dec_len: 0,
            suffix: LiteralSuffix::Empty,
        };
        assert forall|d: int| 0 <= d < s1.len() - (j1 + 1) implies #[trigger] s1[j1 + 1 + d] == s2[j2 + 1
            + d] by {
            assert(s1[i1 + (j1 + 1 + d - i1)] == s2[i2 + (j1 + 1 + d - i1)]);
        }
        lemma_scan_num_tail_cong(s1, j1 + 1, s2, j2 + 1, lit0);
    }
}

proof fn lemma_find_quote_cong(s1: Seq<char>, i1: int, s2: Seq<char>, i2: int)
    requires
        suffix_agree(s1, i1, s2, i2),
    ensures
        match (find_quote(s1, i1), find_quote(s2, i2)) {
            (Some(q1), Some(q2)) => q1 - i1 == q2 - i2,
            (Option::None, Option::None) => true,
            _ => false,
        },
    decreases s1.len() - i1,
{
    if i1 < s1.len() {
        assert(s1[i1 + 0] == s2[i2 + 0]);
        if s1[i1] != '"' {
            assert forall|d: int| 0 <= d < s1.len() - (i1 + 1) implies #[trigger] s1[i1 + 1 + d] == s2[i2 + 1
                + d] by {
                assert(s1[i1 + (d + 1)] == s2[i2 + (d + 1)]);
            }
            lemma_find_quote_cong(s1, i1 + 1, s2, i2 + 1);
        }
    }
}

proof fn lemma_scan_ident_cong(
    s1: Seq<char>,
    i1: int,
    s2: Seq<char>,
    i2: int,
    acc: Seq<char>,
    forced: bool,
)
    requires
        suffix_agree(s1, i1, s2, i2),
    ensures
        match (scan_ident(s1, i1, acc, forced), scan_ident(s2, i2, acc, forced)) {
            (Some((c1, f1, j1)), Some((c2, f2, j2))) => c1 == c2 && f1 == f2 && j1 - i1 == j2 - i2,
            (Option::None, Option::None) => true,
            _ => false,
        },
    decreases s1.len() - i1,
{
    if i1 < s1.len() {
        assert(s1[i1 + 0] == s2[i2 + 0]);
        if is_ident_char(s1[i1]) || is_angle(s1[i1]) {
            assert forall|d: int| 0 <= d < s1.len() - (i1 + 1) implies #[trigger] s1[i1 + 1 + d] == s2[i2 + 1
                + d] by {
                assert(s1[i1 + (d + 1)] == s2[i2 + (d + 1)]);
            }
            if is_ident_char(s1[i1]) {
                lemma_scan_ident_cong(s1, i1 + 1, s2, i2 + 1, acc.push(s1[i1]), forced);
            } else {
                lemma_scan_ident_cong(s1, i1 + 1, s2, i2 + 1, acc.push(s1[i1]), true);
            }
        }
    }
}

/// The scan of a position depends only on the characters from it onward: two
/// inputs that agree from `i1` and `i2` to their ends scan to the same tokens.
pub proof fn lemma_tok_scan_cong(s1: Seq<char>, i1: int, s2: Seq<char>, i2: int)
    requires
        suffix_agree(s1, i1, s2, i2),
    ensures
        tok_scan(s1, i1) == tok_scan(s2, i2),
    decreases s1.len() - i1,
{
    if i1 >= s1.len() {
    } else {
        assert(s1[i1 + 0] == s2[i2 + 0]);
        if i1 + 1 < s1.len() {
            assert(s1[i1 + 1] == s2[i2 + 1]);
        }
        assert forall|d: int| 0 <= d < s1.len() - (i1 + 1) implies #[trigger] s1[i1 + 1 + d] == s2[i2 + 1
            + d] by {
            assert(s1[i1 + (d + 1)] == s2[i2 + (d + 1)]);
        }
        if i1 + 2 <= s1.len() {
            assert forall|d: int| 0 <= d < s1.len() - (i1 + 2) implies #[trigger] s1[i1 + 2 + d] == s2[i2 + 2
                + d] by {
                assert(s1[i1 + (d + 2)] == s2[i2 + (d + 2)]);
            }
        }
        let c = s1[i1];
        if c == '+' || c == '/' || c == '*' || c == ')' || c == '[' || c == ']' || c == ' ' {
            lemma_tok_scan_cong(s1, i1 + 1, s2, i2 + 1);
        } else if c == '(' {
            if i1 + 1 < s1.len() {
                if s1[i1 + 1] == ')' {
                    lemma_tok_scan_cong(s1, i1 + 2, s2, i2 + 2);
                } else {
                    lemma_tok_scan_cong(s1, i1 + 1, s2, i2 + 1);
                }
            }
        } else if is_digit(c) {
            lemma_scan_num_cong(s1, i1, s2, i2);
            lemma_scan_num_bounds(s1, i1);
            match scan_num(s1, i1) {
                Some((lit, j1)) => {
                    let j2 = j1 - i1 + i2;
                    assert forall|d: int| 0 <= d < s1.len() - j1 implies #[trigger] s1[j1 + d] == s2[j2
                        + d] by {
                        assert(s1[i1 + (j1 - i1 + d)] == s2[i2 + (j1 - i1 + d)]);
                    }
                    lemma_tok_scan_cong(s1, j1, s2, j2);
                },
                None => {},
            }
        } else if c == '\'' {
            if i1 + 2 < s1.len() {
                assert(s1[i1 + 2] == s2[i2 + 2]);
                assert(s1[i1 + 1] == s2[i2 + 1]);
                if s1[i1 + 2] == '\'' {
                    assert forall|d: int| 0 <= d < s1.len() - (i1 + 3) implies #[trigger] s1[i1 + 3 + d]
                        == s2[i2 + 3 + d] by {
                        assert(s1[i1 + (d + 3)] == s2[i2 + (d + 3)]);
                    }
                    lemma_tok_scan_cong(s1, i1 + 3, s2, i2 + 3);
                }
            } else {
                assert(scan_char_lit(s1, i1) is None);
                assert(scan_char_lit(s2, i2) is None);
            }
        } else if c == '"' {
            lemma_find_quote_cong(s1, i1 + 1, s2, i2 + 1);
            lemma_find_quote_bounds(s1, i1 + 1);
            lemma_find_quote_bounds(s2, i2 + 1);
            match find_quote(s1, i1 + 1) {
                Some(q1) => {
                    let q2 = q1 - i1 + i2;
                    assert(find_quote(s2, i2 + 1) == Some(q2));
                    assert(s1.subrange(i1 + 1, q1) =~= s2.subrange(i2 + 1, q2)) by {
                        assert forall|d: int| 0 <= d < q1 - i1 - 1 implies #[trigger] s1.subrange(i1 + 1, q1)[d]
                            == s2.subrange(i2 + 1, q2)[d] by {
                            assert(s1[i1 + (d + 1)] == s2[i2 + (d + 1)]);
                        }
                    }
                    assert forall|d: int| 0 <= d < s1.len() - (q1 + 1) implies #[trigger] s1[q1 + 1 + d]
                        == s2[q2 + 1 + d] by {
                        assert(s1[i1 + (q1 + 1 + d - i1)] == s2[i2 + (q1 + 1 + d - i1)]);
                    }
                    lemma_tok_scan_cong(s1, q1 + 1, s2, q2 + 1);
                },
                None => {},
            }
        } else if c == '-' {
            if i1 + 1 >= s1.len() {
            } else if s1[i1 + 1] == ' ' {
                lemma_tok_scan_cong(s1, i1 + 1, s2, i2 + 1);
            } else {
                lemma_scan_num_cong(s1, i1, s2, i2);
                lemma_scan_num_bounds(s1, i1);
                match scan_num(s1, i1) {
                    Some((lit, j1)) => {
                        let j2 = j1 - i1 + i2;
                        assert forall|d: int| 0 <= d < s1.len() - j1 implies #[trigger] s1[j1 + d] == s2[j2
                            + d] by {
                            assert(s1[i1 + (j1 - i1 + d)] == s2[i2 + (j1 - i1 + d)]);
                        }
                        lemma_tok_scan_cong(s1, j1, s2, j2);
                    },
                    None => {},
                }
            }
        } else if is_letter(c) {
            lemma_scan_ident_cong(s1, i1, s2, i2, Seq::empty(), false);
            lemma_scan_ident_strict(s1, i1, Seq::empty(), false);
            match scan_ident(s1, i1, Seq::empty(), false) {
                Some((cs, forced, j1)) => {
                    let j2 = j1 - i1 + i2;
                    match classify_ident(cs, forced) {
                        Some(tm) => {
                            assert forall|d: int| 0 <= d < s1.len() - j1 implies #[trigger] s1[j1 + d] == s2[j2
                                + d] by {
                                assert(s1[i1 + (j1 - i1 + d)] == s2[i2 + (j1 - i1 + d)]);
                            }
                            lemma_tok_scan_cong(s1, j1, s2, j2);
                        },
                        None => {},
                    }
                },
                None => {},
            }
        }
    }
}

} // verus!

verus! {

proof fn lemma_classify_three(cs: Seq<char>)
    requires
        cs.len() == 3,
        cs == "add"@ || cs == "sub"@ || cs == "div"@ || cs == "mul"@,
    ensures
        cs == "add"@ ==> classify_ident(cs, false) == Some(
            TokenModel::Reserved(ReservedIdent::Add),
        ),
        cs == "sub"@ ==> classify_ident(cs, false) == Some(
            TokenModel::Reserved(ReservedIdent::Sub),
        ),
        cs == "div"@ ==> classify_ident(cs, false) == Some(
            TokenModel::Reserved(ReservedIdent::Div),
        ),
        cs == "mul"@ ==> classify_ident(cs, false) == Some(
            TokenModel::Reserved(ReservedIdent::Mul),
        ),
{
    reveal_strlit("add");
    reveal_strlit("sub");
    reveal_strlit("div");
    reveal_strlit("mul");
    reveal_strlit("int");
    reveal_strlit("uint");
    reveal_strlit("float");
    reveal_strlit("unit");
    reveal_strlit("char");
    reveal_strlit("bool");
    assert("add"@[0] == 'a' && "sub"@[0] == 's' && "div"@[0] == 'd' && "mul"@[0] == 'm');
    assert("int"@[0] == 'i' && "int"@.len() == 3);
    assert("uint"@.len() == 4 && "float"@.len() == 5 && "unit"@.len() == 4 && "char"@.len() == 4
        && "bool"@.len() == 4);
    assert(spec_type_of(cs) is None);
}

/// The two surface forms of one operator tokenize identically: written as the
/// symbol or as the keyword before the same remainder, the token sequences
/// are equal. The remainder must begin with a character that ends a keyword.
pub proof fn lemma_operator_alias(sym: char, y: Seq<char>)
    requires
        sym == '+' || sym == '/' || sym == '*',
        y.len() >= 1,
        !is_ident_char(y[0]),
        !is_angle(y[0]),
    ensures
        sym == '+' ==> tok_scan(seq!['+'] + y, 0) == tok_scan("add"@ + y, 0),
        sym == '/' ==> tok_scan(seq!['/'] + y, 0) == tok_scan("div"@ + y, 0),
        sym == '*' ==> tok_scan(seq!['*'] + y, 0) == tok_scan("mul"@ + y, 0),
{
    let word = if sym == '+' {
        "add"@
    } else if sym == '/' {
        "div"@
    } else {
        "mul"@
    };
    let op = if sym == '+' {
        ReservedIdent::Add
    } else if sym == '/' {
        ReservedIdent::Div
    } else {
        ReservedIdent::Mul
    };
    reveal_strlit("add");
    reveal_strlit("div");
    reveal_strlit("mul");
    let s1 = seq![sym] + y;
    let s2 = word + y;
    assert(s1.len() == 1 + y.len());
    assert(s2.len() == 3 + y.len());
    assert(s1[0] == sym);
    assert(tok_scan(s1, 0) == tok_cons(TokenModel::Reserved(op), tok_scan(s1, 1)));
    let cs = seq![s2[0], s2[1], s2[2]];
    assert(is_letter(s2[0]));
    assert(is_ident_char(s2[0]) && is_ident_char(s2[1]) && is_ident_char(s2[2]));
    assert(s2[3] == y[0]);
    assert(scan_ident(s2, 0, Seq::empty(), false) == scan_ident(s2, 1, seq![s2[0]], false)) by {
        assert(Seq::<char>::empty().push(s2[0]) =~= seq![s2[0]]);
    }
    assert(scan_ident(s2, 1, seq![s2[0]], false) == scan_ident(s2, 2, seq![s2[0], s2[1]], false))
        by {
        assert(seq![s2[0]].push(s2[1]) =~= seq![s2[0], s2[1]]);
    }
    assert(scan_ident(s2, 2, seq![s2[0], s2[1]], false) == scan_ident(s2, 3, cs, false)) by {
        assert(seq![s2[0], s2[1]].push(s2[2]) =~= cs);
    }
    assert(scan_ident(s2, 3, cs, false) == Some((cs, false, 3int)));
    assert(cs =~= word);
    lemma_classify_three(cs);
    assert(classify_ident(cs, false) == Some(TokenModel::Reserved(op)));
    assert(tok_scan(s2, 0) == tok_cons(TokenModel::Reserved(op), tok_scan(s2, 3)));
    assert(suffix_agree(s1, 1, s2, 3)) by {
        assert forall|d: int| 0 <= d < s1.len() - 1 implies #[trigger] s1[1 + d] == s2[3 + d] by {
            assert(s1[1 + d] == y[d]);
            assert(s2[3 + d] == y[d]);
        }
    }
    lemma_tok_scan_cong(s1, 1, s2, 3);
}

/// The subtraction operator in its two surface forms: a minus must be
/// followed by a space to read as the operator, and then tokenizes as `sub`
/// before the same remainder does.
pub proof fn lemma_operator_alias_sub(y: Seq<char>)
    requires
        y.len() >= 1,
        y[0] == ' ',
    ensures
        tok_scan(seq!['-'] + y, 0) == tok_scan("sub"@ + y, 0),
{
    reveal_strlit("add");
    reveal_strlit("sub");
    let s1 = seq!['-'] + y;
    let s2 = "sub"@ + y;
    assert(s1.len() == 1 + y.len());
    assert(s2.len() == 3 + y.len());
    assert(s1[0] == '-');
    assert(s1[1] == y[0]);
    assert(tok_scan(s1, 0) == tok_cons(TokenModel::Reserved(ReservedIdent::Sub), tok_scan(s1, 1)));
    let cs = seq![s2[0], s2[1], s2[2]];
    assert(is_letter(s2[0]));
    assert(is_ident_char(s2[0]) && is_ident_char(s2[1]) && is_ident_char(s2[2]));
    assert(s2[3] == y[0]);
    assert(!is_ident_char(y[0]) && !is_angle(y[0]));
    assert(scan_ident(s2, 0, Seq::empty(), false) == scan_ident(s2, 1, seq![s2[0]], false)) by {
        assert(Seq::<char>::empty().push(s2[0]) =~= seq![s2[0]]);
    }
    assert(scan_ident(s2, 1, seq![s2[0]], false) == scan_ident(s2, 2, seq![s2[0], s2[1]], false))
        by {
        assert(seq![s2[0]].push(s2[1]) =~= seq![s2[0], s2[1]]);
    }
    assert(scan_ident(s2, 2, seq![s2[0], s2[1]], false) == scan_ident(s2, 3, cs, false)) by {
        assert(seq![s2[0], s2[1]].push(s2[2]) =~= cs);
    }
    assert(scan_ident(s2, 3, cs, false) == Some((cs, false, 3int)));
    assert(cs =~= "sub"@);
    lemma_classify_three(cs);
    assert(tok_scan(s2, 0) == tok_cons(TokenModel::Reserved(ReservedIdent::Sub), tok_scan(s2, 3)));
    assert(suffix_agree(s1, 1, s2, 3)) by {
        assert forall|d: int| 0 <= d < s1.len() - 1 implies #[trigger] s1[1 + d] == s2[3 + d] by {
            assert(s1[1 + d] == y[d]);
            assert(s2[3 + d] == y[d]);
        }
    }
    lemma_tok_scan_cong(s1, 1, s2, 3);
}

} // verus!
