//! The parser: recursive descent over the token sequence, one token of
//! lookahead, producing a syntax tree of rule nodes. The executable parser is
//! proved to return exactly what the specification parse functions
//! (`spec_parse_prog` and friends) describe, both on success and on failure.

use super::lexer::{ReservedIdent, Token, TokenModel};
use crate::error::{InterpretError, InterpreteResult};
use vstd::prelude::*;
use vstd::string::StringExecFns;

verus! {

broadcast use vstd::seq::axiom_seq_index_decreases, vstd::seq::axiom_seq_subrange_decreases, vstd::std_specs::vec::axiom_vec_decreases_to_view, vstd::std_specs::vec::axiom_vec_index_decreases;

/// The grammar rules.
#[derive(Debug, PartialEq, Eq, Structural, Clone, Copy)]
pub enum Rule {
    Prog,
    Expr,
    ExprBody,
    Val,
    List,
    ListBody,
    FuncCall,
    Args,
}

/// A syntax-tree node: a leaf holding one token, or a rule node owning its
/// ordered children outright.
#[derive(Debug, PartialEq, Eq)]
pub enum Node {
    Leaf(Token),
    Rule(RuleNodeData),
}

/// The children of a rule node, tagged with its rule.
#[derive(Debug, PartialEq, Eq)]
pub struct RuleNodeData {
    pub rule: Rule,
    pub children: Vec<Node>,
}

/// The mathematical shape of a syntax tree.
pub enum NodeModel {
    Leaf(TokenModel),
    Rule(Rule, Seq<NodeModel>),
}

/// The model of a node.
pub open spec fn node_view(n: Node) -> NodeModel
    decreases n,
{
    match n {
        Node::Leaf(t) => NodeModel::Leaf(t@),
        Node::Rule(d) => NodeModel::Rule(d.rule, nodes_view(d.children@)),
    }
}

/// The models of a node sequence, in order.
pub open spec fn nodes_view(s: Seq<Node>) -> Seq<NodeModel>
    decreases s,
{
    if s.len() == 0 {
        Seq::empty()
    } else {
        seq![node_view(s[0])] + nodes_view(s.subrange(1, s.len() as int))
    }
}

impl View for Node {
    type V = NodeModel;

    open spec fn view(&self) -> NodeModel {
        node_view(*self)
    }
}

/// The element-wise reading of [`nodes_view`].
pub proof fn lemma_nodes_view_elts(s: Seq<Node>)
    ensures
        nodes_view(s).len() == s.len(),
        forall|i: int| 0 <= i < s.len() ==> nodes_view(s)[i] == node_view(#[trigger] s[i]),
    decreases s,
{
    if s.len() > 0 {
        lemma_nodes_view_elts(s.subrange(1, s.len() as int));
        assert forall|i: int| 0 <= i < s.len() implies nodes_view(s)[i] == node_view(
            #[trigger] s[i],
        ) by {
            if i > 0 {
                assert(s.subrange(1, s.len() as int)[i - 1] == s[i]);
            }
        }
    }
}

impl Node {
    /// A new rule node owning the given children.
    pub fn new_rule_node(rule: Rule, children: Vec<Node>) -> (r: Self)
        ensures
            r@ == NodeModel::Rule(rule, nodes_view(children@)),
    {
        Node::Rule(RuleNodeData { rule, children })
    }

    /// True when this is a `Val` rule node.
    pub fn is_val(&self) -> (r: bool)
        ensures
            r == (self@ matches NodeModel::Rule(Rule::Val, _)),
    {
        match self {
            Node::Rule(d) => matches!(d.rule, Rule::Val),
            _ => false,
        }
    }

    /// True when this is a `FuncCall` rule node.
    pub fn is_func_call(&self) -> (r: bool)
        ensures
            r == (self@ matches NodeModel::Rule(Rule::FuncCall, _)),
    {
        match self {
            Node::Rule(d) => matches!(d.rule, Rule::FuncCall),
            _ => false,
        }
    }

    /// A deep copy whose model equals the source's.
    #[verifier::loop_isolation(false)]
    pub fn deep_copy(&self) -> (r: Node)
        ensures
            r@ == self@,
        decreases *self,
    {
        match self {
            Node::Leaf(t) => Node::Leaf(t.clone()),
            Node::Rule(d) => {
                let mut out: Vec<Node> = Vec::new();
                let n = d.children.len();
                let mut k: usize = 0;
                while k < n
                    invariant
                        k <= n,
                        n == d.children@.len(),
                        out@.len() == k,
                        forall|i: int|
                            0 <= i < k ==> node_view(#[trigger] out@[i]) == node_view(
                                d.children@[i],
                            ),
                    decreases n - k,
                {
                    let child = &d.children[k];
                    out.push(child.deep_copy());
                    k = k + 1;
                }
                proof {
                    lemma_nodes_view_elts(out@);
                    lemma_nodes_view_elts(d.children@);
                    assert forall|i: int| 0 <= i < n implies nodes_view(out@)[i] == nodes_view(
                        d.children@,
                    )[i] by {
                        assert(node_view(out@[i]) == node_view(d.children@[i]));
                    }
                    assert(nodes_view(out@) =~= nodes_view(d.children@));
                }
                Node::Rule(RuleNodeData { rule: d.rule, children: out })
            },
        }
    }
}

impl Clone for Node {
    /// A deep copy whose model equals the source's.
    fn clone(&self) -> (r: Self)
        ensures
            r@ == self@,
    {
        self.deep_copy()
    }
}

impl RuleNodeData {
    /// Tag the given children with a rule.
    pub fn new(rule: Rule, children: Vec<Node>) -> (r: Self)
        ensures
            r.rule == rule,
            r.children@ == children@,
    {
        RuleNodeData { rule, children }
    }
}

/// The parse tree of a whole program, rooted at its `Prog` node.
pub struct Tree {
    pub base: Node,
}

} // verus!

verus! {

/// True when a token may begin a `Val`.
pub open spec fn is_val_start(t: TokenModel) -> bool {
    ||| t is LBrack
    ||| t is LParen
    ||| t is Ident
    ||| t is Type
    ||| t is CharLiteral
    ||| t is StringLiteral
    ||| t is NumLiteral
    ||| t is UnitLiteral
}

/// True when a token is itself a complete `Val` (no brackets).
pub open spec fn is_terminal_val(t: TokenModel) -> bool {
    ||| t is Ident
    ||| t is Type
    ||| t is CharLiteral
    ||| t is StringLiteral
    ||| t is NumLiteral
    ||| t is UnitLiteral
}

/// Parse `Expr := '(' ExprBody ')'` at `i`; the result carries the node and
/// the position just past the closing parenthesis.
pub open spec fn spec_parse_expr(ts: Seq<TokenModel>, i: int) -> Option<(NodeModel, int)>
    decreases ts.len() - i, 1int,
    when 0 <= i
{
    if i < ts.len() && ts[i] is LParen {
        match spec_parse_expr_body(ts, i + 1) {
            Some((body, j)) => if j < ts.len() && ts[j] is RParen {
                Some((NodeModel::Rule(Rule::Expr, seq![body]), j + 1))
            } else {
                None
            },
            None => None,
        }
    } else {
        None
    }
}

/// Parse `ExprBody := FuncCall | Val` at `i`.
pub open spec fn spec_parse_expr_body(ts: Seq<TokenModel>, i: int) -> Option<(NodeModel, int)>
    decreases ts.len() - i, 5int,
    when 0 <= i
{
    if i >= ts.len() {
        None
    } else if ts[i] is Reserved {
        match spec_parse_func_call(ts, i) {
            Some((child, j)) => Some((NodeModel::Rule(Rule::ExprBody, seq![child]), j)),
            None => None,
        }
    } else if is_val_start(ts[i]) {
        match spec_parse_val(ts, i) {
            Some((child, j)) => Some((NodeModel::Rule(Rule::ExprBody, seq![child]), j)),
            None => None,
        }
    } else {
        None
    }
}

/// Parse `FuncCall := ReservedOp Args` at `i`.
pub open spec fn spec_parse_func_call(ts: Seq<TokenModel>, i: int) -> Option<(NodeModel, int)>
    decreases ts.len() - i, 4int,
    when 0 <= i
{
    if i < ts.len() {
        match ts[i] {
            TokenModel::Reserved(f) => match spec_parse_args(ts, i + 1) {
                Some((args, j)) => Some(
                    (
                        NodeModel::Rule(
                            Rule::FuncCall,
                            seq![NodeModel::Leaf(TokenModel::Reserved(f)), args],
                        ),
                        j,
                    ),
                ),
                None => None,
            },
            _ => None,
        }
    } else {
        None
    }
}

/// Parse the right-recursive `Args := Val | Val Args` at `i`; the argument
/// list is terminal exactly when a closing parenthesis follows.
pub open spec fn spec_parse_args(ts: Seq<TokenModel>, i: int) -> Option<(NodeModel, int)>
    decreases ts.len() - i, 6int,
    when 0 <= i
{
    if i < ts.len() && is_val_start(ts[i]) {
        match spec_parse_val(ts, i) {
            Some((val, j)) => if j < ts.len() {
                if ts[j] is RParen {
                    Some((NodeModel::Rule(Rule::Args, seq![val]), j))
                } else if i < j {
                    match spec_parse_args(ts, j) {
                        Some((tail, k)) => Some((NodeModel::Rule(Rule::Args, seq![val, tail]), k)),
                        None => None,
                    }
                } else {
                    None
                }
            } else {
                None
            },
            None => None,
        }
    } else {
        None
    }
}

/// Parse `Val := List | Expr | terminal` at `i`.
pub open spec fn spec_parse_val(ts: Seq<TokenModel>, i: int) -> Option<(NodeModel, int)>
    decreases ts.len() - i, 3int,
    when 0 <= i
{
    if i >= ts.len() {
        None
    } else if ts[i] is LBrack {
        match spec_parse_list(ts, i) {
            Some((child, j)) => Some((NodeModel::Rule(Rule::Val, seq![child]), j)),
            None => None,
        }
    } else if ts[i] is LParen {
        match spec_parse_expr(ts, i) {
            Some((child, j)) => Some((NodeModel::Rule(Rule::Val, seq![child]), j)),
            None => None,
        }
    } else if is_terminal_val(ts[i]) {
        Some((NodeModel::Rule(Rule::Val, seq![NodeModel::Leaf(ts[i])]), i + 1))
    } else {
        None
    }
}

/// Parse `List := '[' ListBody ']'` at `i`.
pub open spec fn spec_parse_list(ts: Seq<TokenModel>, i: int) -> Option<(NodeModel, int)>
    decreases ts.len() - i, 1int,
    when 0 <= i
{
    if i < ts.len() && ts[i] is LBrack {
        match spec_parse_list_body(ts, i + 1) {
            Some((body, j)) => if j < ts.len() && ts[j] is RBrack {
                Some((NodeModel::Rule(Rule::List, seq![body]), j + 1))
            } else {
                None
            },
            None => None,
        }
    } else {
        None
    }
}

/// Parse the right-recursive `ListBody := Val | Val ListBody` at `i`; the
/// list body is terminal exactly when a closing bracket follows.
pub open spec fn spec_parse_list_body(ts: Seq<TokenModel>, i: int) -> Option<(NodeModel, int)>
    decreases ts.len() - i, 6int,
    when 0 <= i
{
    if i < ts.len() && is_val_start(ts[i]) {
        match spec_parse_val(ts, i) {
            Some((val, j)) => if j < ts.len() {
                if ts[j] is RBrack {
                    Some((NodeModel::Rule(Rule::ListBody, seq![val]), j))
                } else if i < j {
                    match spec_parse_list_body(ts, j) {
                        Some((tail, k)) => Some(
                            (NodeModel::Rule(Rule::ListBody, seq![val, tail]), k),
                        ),
                        None => None,
                    }
                } else {
                    None
                }
            } else {
                None
            },
            None => None,
        }
    } else {
        None
    }
}

/// Parse `Prog := Expr EOF`. The returned position is that of the `EOF`
/// token, which is checked but not consumed.
pub open spec fn spec_parse_prog(ts: Seq<TokenModel>) -> Option<(NodeModel, int)> {
    match spec_parse_expr(ts, 0) {
        Some((child, j)) => if j < ts.len() && ts[j] is EOF {
            Some((NodeModel::Rule(Rule::Prog, seq![child]), j))
        } else {
            None
        },
        None => None,
    }
}

} // verus!

verus! {

proof fn lemma_parse_expr_bounds(ts: Seq<TokenModel>, i: int)
    requires
        0 <= i,
    ensures
        spec_parse_expr(ts, i) matches Some((nm, j)) ==> i < j <= ts.len(),
    decreases ts.len() - i, 2int,
{
    if i < ts.len() && ts[i] is LParen {
        lemma_parse_expr_body_bounds(ts, i + 1);
    }
}

proof fn lemma_parse_expr_body_bounds(ts: Seq<TokenModel>, i: int)
    requires
        0 <= i,
    ensures
        spec_parse_expr_body(ts, i) matches Some((nm, j)) ==> i < j <= ts.len(),
    decreases ts.len() - i, 6int,
{
    if i < ts.len() {
        if ts[i] is Reserved {
            lemma_parse_func_call_bounds(ts, i);
        } else if is_val_start(ts[i]) {
            lemma_parse_val_bounds(ts, i);
        }
    }
}

proof fn lemma_parse_func_call_bounds(ts: Seq<TokenModel>, i: int)
    requires
        0 <= i,
    ensures
        spec_parse_func_call(ts, i) matches Some((nm, j)) ==> i < j <= ts.len(),
    decreases ts.len() - i, 5int,
{
    if i < ts.len() {
        lemma_parse_args_bounds(ts, i + 1);
    }
}

proof fn lemma_parse_args_bounds(ts: Seq<TokenModel>, i: int)
    requires
        0 <= i,
    ensures
        spec_parse_args(ts, i) matches Some((nm, j)) ==> i < j <= ts.len(),
    decreases ts.len() - i, 7int,
{
    if i < ts.len() && is_val_start(ts[i]) {
        lemma_parse_val_bounds(ts, i);
        match spec_parse_val(ts, i) {
            Some((val, j)) => {
                if j < ts.len() && !(ts[j] is RParen) && i < j {
                    lemma_parse_args_bounds(ts, j);
                }
            },
            None => {},
        }
    }
}

proof fn lemma_parse_val_bounds(ts: Seq<TokenModel>, i: int)
    requires
        0 <= i,
    ensures
        spec_parse_val(ts, i) matches Some((nm, j)) ==> i < j <= ts.len(),
    decreases ts.len() - i, 4int,
{
    if i < ts.len() {
        if ts[i] is LBrack {
            lemma_parse_list_bounds(ts, i);
        } else if ts[i] is LParen {
            lemma_parse_expr_bounds(ts, i);
        }
    }
}

proof fn lemma_parse_list_bounds(ts: Seq<TokenModel>, i: int)
    requires
        0 <= i,
    ensures
        spec_parse_list(ts, i) matches Some((nm, j)) ==> i < j <= ts.len(),
    decreases ts.len() - i, 2int,
{
    if i < ts.len() && ts[i] is LBrack {
        lemma_parse_list_body_bounds(ts, i + 1);
    }
}

proof fn lemma_parse_list_body_bounds(ts: Seq<TokenModel>, i: int)
    requires
        0 <= i,
    ensures
        spec_parse_list_body(ts, i) matches Some((nm, j)) ==> i < j <= ts.len(),
    decreases ts.len() - i, 7int,
{
    if i < ts.len() && is_val_start(ts[i]) {
        lemma_parse_val_bounds(ts, i);
        match spec_parse_val(ts, i) {
            Some((val, j)) => {
                if j < ts.len() && !(ts[j] is RBrack) && i < j {
                    lemma_parse_list_body_bounds(ts, j);
                }
            },
            None => {},
        }
    }
}

/// A one-element child vector.
fn node_vec1(a: Node) -> (r: Vec<Node>)
    ensures
        r@ =~= seq![a],
{
    let mut v: Vec<Node> = Vec::new();
    v.push(a);
    v
}

/// A two-element child vector.
fn node_vec2(a: Node, b: Node) -> (r: Vec<Node>)
    ensures
        r@ =~= seq![a, b],
{
    let mut v: Vec<Node> = Vec::new();
    v.push(a);
    v.push(b);
    v
}

proof fn lemma_nv1(a: Node)
    ensures
        nodes_view(seq![a]) =~= seq![node_view(a)],
{
    assert(seq![a].subrange(1, 1) =~= Seq::<Node>::empty());
    assert(nodes_view(Seq::<Node>::empty()).len() == 0);
    assert(seq![a][0] == a);
    assert(seq![node_view(a)] + Seq::<NodeModel>::empty() =~= seq![node_view(a)]);
}

proof fn lemma_nv2(a: Node, b: Node)
    ensures
        nodes_view(seq![a, b]) =~= seq![node_view(a), node_view(b)],
{
    assert(seq![a, b].subrange(1, 2) =~= seq![b]);
    lemma_nv1(b);
    assert(seq![a, b][0] == a);
    assert(seq![node_view(a)] + seq![node_view(b)] =~= seq![node_view(a), node_view(b)]);
}

/// True when the token may begin a `Val`, for the executable parser.
pub fn is_val_start_token(t: &Token) -> (r: bool)
    ensures
        r == is_val_start(t@),
{
    match t {
        Token::LBrack => true,
        Token::LParen => true,
        Token::Ident(_) => true,
        Token::Type(_) => true,
        Token::CharLiteral(_) => true,
        Token::StringLiteral(_) => true,
        Token::NumLiteral(_) => true,
        Token::UnitLiteral => true,
        _ => false,
    }
}

/// True when the token is a complete `Val` by itself.
pub fn is_terminal_val_token(t: &Token) -> (r: bool)
    ensures
        r == is_terminal_val(t@),
{
    match t {
        Token::Ident(_) => true,
        Token::Type(_) => true,
        Token::CharLiteral(_) => true,
        Token::StringLiteral(_) => true,
        Token::NumLiteral(_) => true,
        Token::UnitLiteral => true,
        _ => false,
    }
}

/// The keyword of a reserved operator.
fn reserved_name(r: ReservedIdent) -> (s: &'static str) {
    match r {
        ReservedIdent::Add => "Add",
        ReservedIdent::Sub => "Sub",
        ReservedIdent::Div => "Div",
        ReservedIdent::Mul => "Mul",
        ReservedIdent::Write => "Write",
        ReservedIdent::Read => "Read",
        ReservedIdent::If => "If",
        ReservedIdent::While => "While",
        ReservedIdent::Eq => "Eq",
        ReservedIdent::Neq => "Neq",
        ReservedIdent::Leq => "Leq",
        ReservedIdent::Geq => "Geq",
        ReservedIdent::Lt => "Lt",
        ReservedIdent::Gt => "Gt",
        ReservedIdent::And => "And",
        ReservedIdent::Or => "Or",
        ReservedIdent::SetVar => "SetVar",
        ReservedIdent::Init => "Init",
        ReservedIdent::Def => "Def",
        ReservedIdent::Concat => "Concat",
        ReservedIdent::Prepend => "Prepend",
        ReservedIdent::Take => "Take",
        ReservedIdent::Split => "Split",
        ReservedIdent::Eval => "Eval",
        ReservedIdent::ToString => "ToString",
    }
}

/// A short description of a token for error messages.
fn token_describe(t: &Token) -> (s: String) {
    match t {
        Token::NumLiteral(_) => "NumLiteral".to_owned(),
        Token::CharLiteral(_) => "CharLiteral".to_owned(),
        Token::UnitLiteral => "UnitLiteral".to_owned(),
        Token::StringLiteral(st) => {
            let mut m = "StringLiteral(".to_owned();
            m.append(st.as_str());
            m.append(")");
            m
        },
        Token::Ident(id) => {
            let mut m = "Ident(".to_owned();
            m.append(id.as_str());
            m.append(")");
            m
        },
        Token::Type(_) => "Type".to_owned(),
        Token::Reserved(r) => {
            let mut m = "Reserved(".to_owned();
            m.append(reserved_name(*r));
            m.append(")");
            m
        },
        Token::LParen => "LParen".to_owned(),
        Token::RParen => "RParen".to_owned(),
        Token::LBrack => "LBrack".to_owned(),
        Token::RBrack => "RBrack".to_owned(),
        Token::EOF => "EOF".to_owned(),
    }
}

/// An error whose message is a fixed text followed by a token description.
fn token_err(prefix: &str, t: &Token) -> (e: InterpretError)
    ensures
        true,
{
    let mut m = prefix.to_owned();
    let d = token_describe(t);
    m.append(d.as_str());
    InterpretError::from_string(m)
}

} // verus!

verus! {

use super::lexer::toks_view;

/// Parse one expression at `pos`, returning the node and the count of tokens
/// consumed; exactly the specification parse, on success and on failure.
fn parse_expr(tokens: &[Token], pos: usize) -> (r: InterpreteResult<(Node, usize)>)
    requires
        pos <= tokens@.len(),
    ensures
        r matches Ok(p) ==> spec_parse_expr(toks_view(tokens@), pos as int) == Some(
            (p.0@, pos + p.1 as int),
        ),
        r is Err ==> spec_parse_expr(toks_view(tokens@), pos as int) is None,
    decreases tokens@.len() - pos, 1int,
{
    let ghost ts = toks_view(tokens@);
    let n = tokens.len();
    if pos < n && matches!(&tokens[pos], Token::LParen) {
        match parse_expr_body(tokens, pos + 1) {
            Ok((body, cnt)) => {
                proof {
                    lemma_parse_expr_body_bounds(ts, pos + 1 as int);
                }
                let j = pos + 1 + cnt;
                if j < n && matches!(&tokens[j], Token::RParen) {
                    let ghost bm = body@;
                    let node = Node::Rule(
                        RuleNodeData { rule: Rule::Expr, children: node_vec1(body) },
                    );
                    proof {
                        lemma_nv1(node->Rule_0.children@[0]);
                        assert(node@ == NodeModel::Rule(Rule::Expr, seq![bm]));
                    }
                    Ok((node, cnt + 2))
                } else if j < n {
                    Err(token_err("Expected ) while parsing expression, encountered ", &tokens[j]))
                } else {
                    Err(InterpretError::msg("Unexpected end of token stream while parsing expression"))
                }
            },
            Err(e) => Err(e),
        }
    } else if pos < n {
        Err(token_err("Expected ( while parsing expression, encountered ", &tokens[pos]))
    } else {
        Err(InterpretError::msg("Unexpected end of token stream while parsing expression"))
    }
}

/// Parse an expression body (a function call or a value) at `pos`.
fn parse_expr_body(tokens: &[Token], pos: usize) -> (r: InterpreteResult<(Node, usize)>)
    requires
        pos <= tokens@.len(),
    ensures
        r matches Ok(p) ==> spec_parse_expr_body(toks_view(tokens@), pos as int) == Some(
            (p.0@, pos + p.1 as int),
        ),
        r is Err ==> spec_parse_expr_body(toks_view(tokens@), pos as int) is None,
    decreases tokens@.len() - pos, 5int,
{
    let ghost ts = toks_view(tokens@);
    let n = tokens.len();
    if pos >= n {
        return Err(InterpretError::msg(
            "Unexpected end of token stream while parsing expression body",
        ));
    }
    if matches!(&tokens[pos], Token::Reserved(_)) {
        match parse_func_call(tokens, pos) {
            Ok((child, cnt)) => {
                let ghost cm = child@;
                let node = Node::Rule(
                    RuleNodeData { rule: Rule::ExprBody, children: node_vec1(child) },
                );
                proof {
                    lemma_nv1(node->Rule_0.children@[0]);
                    assert(node@ == NodeModel::Rule(Rule::ExprBody, seq![cm]));
                }
                Ok((node, cnt))
            },
            Err(e) => Err(e),
        }
    } else if is_val_start_token(&tokens[pos]) {
        match parse_val(tokens, pos) {
            Ok((child, cnt)) => {
                let ghost cm = child@;
                let node = Node::Rule(
                    RuleNodeData { rule: Rule::ExprBody, children: node_vec1(child) },
                );
                proof {
                    lemma_nv1(node->Rule_0.children@[0]);
                    assert(node@ == NodeModel::Rule(Rule::ExprBody, seq![cm]));
                }
                Ok((node, cnt))
            },
            Err(e) => Err(e),
        }
    } else {
        Err(
            token_err(
                "Unexpected token encountered while parsing expression body: ",
                &tokens[pos],
            ),
        )
    }
}

/// Parse a function call (a reserved operator and its arguments) at `pos`.
fn parse_func_call(tokens: &[Token], pos: usize) -> (r: InterpreteResult<(Node, usize)>)
    requires
        pos <= tokens@.len(),
    ensures
        r matches Ok(p) ==> spec_parse_func_call(toks_view(tokens@), pos as int) == Some(
            (p.0@, pos + p.1 as int),
        ),
        r is Err ==> spec_parse_func_call(toks_view(tokens@), pos as int) is None,
    decreases tokens@.len() - pos, 4int,
{
    let ghost ts = toks_view(tokens@);
    let n = tokens.len();
    if pos >= n {
        return Err(InterpretError::msg(
            "Unexpected end of token stream while parsing function call",
        ));
    }
    let func = match &tokens[pos] {
        Token::Reserved(f) => *f,
        _ => {
            return Err(token_err("Expected function name, found ", &tokens[pos]));
        },
    };
    match parse_args(tokens, pos + 1) {
        Ok((args, cnt)) => {
            proof {
                lemma_parse_args_bounds(ts, pos + 1 as int);
            }
            let ghost am = args@;
            let node = Node::Rule(
                RuleNodeData {
                    rule: Rule::FuncCall,
                    children: node_vec2(Node::Leaf(Token::Reserved(func)), args),
                },
            );
            proof {
                lemma_nv2(node->Rule_0.children@[0], node->Rule_0.children@[1]);
                assert(node@ == NodeModel::Rule(
                    Rule::FuncCall,
                    seq![NodeModel::Leaf(TokenModel::Reserved(func)), am],
                ));
            }
            Ok((node, cnt + 1))
        },
        Err(e) => Err(e),
    }
}

/// Parse the argument list of a function call at `pos`. The list ends just
/// before a closing parenthesis.
fn parse_args(tokens: &[Token], pos: usize) -> (r: InterpreteResult<(Node, usize)>)
    requires
        pos <= tokens@.len(),
    ensures
        r matches Ok(p) ==> spec_parse_args(toks_view(tokens@), pos as int) == Some(
            (p.0@, pos + p.1 as int),
        ),
        r is Err ==> spec_parse_args(toks_view(tokens@), pos as int) is None,
    decreases tokens@.len() - pos, 6int,
{
    let ghost ts = toks_view(tokens@);
    let n = tokens.len();
    if pos >= n {
        return Err(InterpretError::msg(
            "Unexpectedly reached end of input while trying to parse arguments",
        ));
    }
    if !is_val_start_token(&tokens[pos]) {
        return Err(
            token_err("Unexpected token encountered while parsing arguments: ", &tokens[pos]),
        );
    }
    match parse_val(tokens, pos) {
        Ok((val, vcnt)) => {
            proof {
                lemma_parse_val_bounds(ts, pos as int);
            }
            let j = pos + vcnt;
            if j >= n {
                return Err(InterpretError::msg(
                    "Unexpectedly reached end of input while trying to parse arguments",
                ));
            }
            if matches!(&tokens[j], Token::RParen) {
                let ghost vm = val@;
                let node = Node::Rule(RuleNodeData { rule: Rule::Args, children: node_vec1(val) });
                proof {
                    lemma_nv1(node->Rule_0.children@[0]);
                    assert(node@ == NodeModel::Rule(Rule::Args, seq![vm]));
                }
                Ok((node, vcnt))
            } else {
                match parse_args(tokens, j) {
                    Ok((tail, tcnt)) => {
                        proof {
                            lemma_parse_args_bounds(ts, j as int);
                        }
                        let ghost vm = val@;
                        let ghost tm = tail@;
                        let node = Node::Rule(
                            RuleNodeData { rule: Rule::Args, children: node_vec2(val, tail) },
                        );
                        proof {
                            lemma_nv2(node->Rule_0.children@[0], node->Rule_0.children@[1]);
                            assert(node@ == NodeModel::Rule(Rule::Args, seq![vm, tm]));
                        }
                        Ok((node, vcnt + tcnt))
                    },
                    Err(e) => Err(e),
                }
            }
        },
        Err(e) => Err(e),
    }
}

/// Parse one value at `pos`: a bracketed list, a parenthesised expression,
/// or a single terminal token.
fn parse_val(tokens: &[Token], pos: usize) -> (r: InterpreteResult<(Node, usize)>)
    requires
        pos <= tokens@.len(),
    ensures
        r matches Ok(p) ==> spec_parse_val(toks_view(tokens@), pos as int) == Some(
            (p.0@, pos + p.1 as int),
        ),
        r is Err ==> spec_parse_val(toks_view(tokens@), pos as int) is None,
    decreases tokens@.len() - pos, 3int,
{
    let ghost ts = toks_view(tokens@);
    let n = tokens.len();
    if pos >= n {
        return Err(InterpretError::msg("Unexpected end of token stream while parsing value"));
    }
    if matches!(&tokens[pos], Token::LBrack) {
        match parse_list(tokens, pos) {
            Ok((child, cnt)) => {
                let ghost cm = child@;
                let node = Node::Rule(RuleNodeData { rule: Rule::Val, children: node_vec1(child) });
                proof {
                    lemma_nv1(node->Rule_0.children@[0]);
                    assert(node@ == NodeModel::Rule(Rule::Val, seq![cm]));
                }
                Ok((node, cnt))
            },
            Err(e) => Err(e),
        }
    } else if matches!(&tokens[pos], Token::LParen) {
        match parse_expr(tokens, pos) {
            Ok((child, cnt)) => {
                let ghost cm = child@;
                let node = Node::Rule(RuleNodeData { rule: Rule::Val, children: node_vec1(child) });
                proof {
                    lemma_nv1(node->Rule_0.children@[0]);
                    assert(node@ == NodeModel::Rule(Rule::Val, seq![cm]));
                }
                Ok((node, cnt))
            },
            Err(e) => Err(e),
        }
    } else if is_terminal_val_token(&tokens[pos]) {
        let leaf = Node::Leaf(tokens[pos].clone());
        let ghost lm = leaf@;
        let node = Node::Rule(RuleNodeData { rule: Rule::Val, children: node_vec1(leaf) });
        proof {
            lemma_nv1(node->Rule_0.children@[0]);
            assert(node@ == NodeModel::Rule(Rule::Val, seq![lm]));
        }
        Ok((node, 1))
    } else {
        Err(token_err("Unexpected token while parsing value: ", &tokens[pos]))
    }
}

/// Parse one bracketed list at `pos`.
fn parse_list(tokens: &[Token], pos: usize) -> (r: InterpreteResult<(Node, usize)>)
    requires
        pos <= tokens@.len(),
    ensures
        r matches Ok(p) ==> spec_parse_list(toks_view(tokens@), pos as int) == Some(
            (p.0@, pos + p.1 as int),
        ),
        r is Err ==> spec_parse_list(toks_view(tokens@), pos as int) is None,
    decreases tokens@.len() - pos, 1int,
{
    let ghost ts = toks_view(tokens@);
    let n = tokens.len();
    if pos < n && matches!(&tokens[pos], Token::LBrack) {
        match parse_list_body(tokens, pos + 1) {
            Ok((body, cnt)) => {
                proof {
                    lemma_parse_list_body_bounds(ts, pos + 1 as int);
                }
                let j = pos + 1 + cnt;
                if j < n && matches!(&tokens[j], Token::RBrack) {
                    let ghost bm = body@;
                    let node = Node::Rule(
                        RuleNodeData { rule: Rule::List, children: node_vec1(body) },
                    );
                    proof {
                        lemma_nv1(node->Rule_0.children@[0]);
                        assert(node@ == NodeModel::Rule(Rule::List, seq![bm]));
                    }
                    Ok((node, cnt + 2))
                } else if j < n {
                    Err(token_err("Expected ] while parsing list, encountered ", &tokens[j]))
                } else {
                    Err(InterpretError::msg("Unexpected end of token stream while parsing list"))
                }
            },
            Err(e) => Err(e),
        }
    } else if pos < n {
        Err(token_err("Expected [ while parsing list, encountered ", &tokens[pos]))
    } else {
        Err(InterpretError::msg("Unexpected end of token stream while parsing list"))
    }
}

/// Parse the body of a bracketed list at `pos`. The body ends just before a
/// closing bracket.
fn parse_list_body(tokens: &[Token], pos: usize) -> (r: InterpreteResult<(Node, usize)>)
    requires
        pos <= tokens@.len(),
    ensures
        r matches Ok(p) ==> spec_parse_list_body(toks_view(tokens@), pos as int) == Some(
            (p.0@, pos + p.1 as int),
        ),
        r is Err ==> spec_parse_list_body(toks_view(tokens@), pos as int) is None,
    decreases tokens@.len() - pos, 6int,
{
    let ghost ts = toks_view(tokens@);
    let n = tokens.len();
    if pos >= n {
        return Err(InterpretError::msg(
            "Unexpectedly reached end of input while trying to parse list",
        ));
    }
    if !is_val_start_token(&tokens[pos]) {
        return Err(token_err("Unexpected token encountered while parsing list: ", &tokens[pos]));
    }
    match parse_val(tokens, pos) {
        Ok((val, vcnt)) => {
            proof {
                lemma_parse_val_bounds(ts, pos as int);
            }
            let j = pos + vcnt;
            if j >= n {
                return Err(InterpretError::msg(
                    "Unexpectedly reached end of input while trying to parse list",
                ));
            }
            if matches!(&tokens[j], Token::RBrack) {
                let ghost vm = val@;
                let node = Node::Rule(
                    RuleNodeData { rule: Rule::ListBody, children: node_vec1(val) },
                );
                proof {
                    lemma_nv1(node->Rule_0.children@[0]);
                    assert(node@ == NodeModel::Rule(Rule::ListBody, seq![vm]));
                }
                Ok((node, vcnt))
            } else {
                match parse_list_body(tokens, j) {
                    Ok((tail, tcnt)) => {
                        proof {
                            lemma_parse_list_body_bounds(ts, j as int);
                        }
                        let ghost vm = val@;
                        let ghost tm = tail@;
                        let node = Node::Rule(
                            RuleNodeData { rule: Rule::ListBody, children: node_vec2(val, tail) },
                        );
                        proof {
                            lemma_nv2(node->Rule_0.children@[0], node->Rule_0.children@[1]);
                            assert(node@ == NodeModel::Rule(Rule::ListBody, seq![vm, tm]));
                        }
                        Ok((node, vcnt + tcnt))
                    },
                    Err(e) => Err(e),
                }
            }
        },
        Err(e) => Err(e),
    }
}

/// Parse a whole program: one expression followed by the end-of-stream
/// token, which is checked but not counted. Returns the `Prog` tree and the
/// count of tokens consumed; exactly the specification parse, on success and
/// on failure, so trailing tokens before `EOF` and unclosed delimiters are
/// rejected.
pub fn parse_prog(tokens: &[Token]) -> (r: InterpreteResult<(Node, usize)>)
    ensures
        r matches Ok(p) ==> spec_parse_prog(toks_view(tokens@)) == Some((p.0@, p.1 as int)),
        r is Err ==> spec_parse_prog(toks_view(tokens@)) is None,
{
    let ghost ts = toks_view(tokens@);
    let n = tokens.len();
    match parse_expr(tokens, 0) {
        Ok((child, cnt)) => {
            proof {
                lemma_parse_expr_bounds(ts, 0);
            }
            if cnt < n && matches!(&tokens[cnt], Token::EOF) {
                let ghost cm = child@;
                let node = Node::Rule(RuleNodeData { rule: Rule::Prog, children: node_vec1(child) });
                proof {
                    lemma_nv1(node->Rule_0.children@[0]);
                    assert(node@ == NodeModel::Rule(Rule::Prog, seq![cm]));
                }
                Ok((node, cnt))
            } else if cnt < n {
                Err(token_err("Unexpected token where EOF was expected: ", &tokens[cnt]))
            } else {
                Err(InterpretError::msg("Unexpected end of token stream before EOF"))
            }
        },
        Err(e) => Err(e),
    }
}

} // verus!

verus! {

/// A `Val` node wrapping one terminal token.
pub fn val_node(tok: Token) -> (r: Node)
    ensures
        r@ == NodeModel::Rule(Rule::Val, seq![NodeModel::Leaf(tok@)]),
{
    let ghost tm = tok@;
    let node = Node::Rule(RuleNodeData { rule: Rule::Val, children: node_vec1(Node::Leaf(tok)) });
    proof {
        lemma_nv1(node->Rule_0.children@[0]);
    }
    node
}

/// A `Val` node wrapping one already-built node (a list or an expression).
pub fn val_node_from(child: Node) -> (r: Node)
    ensures
        r@ == NodeModel::Rule(Rule::Val, seq![child@]),
{
    let ghost cm = child@;
    let node = Node::Rule(RuleNodeData { rule: Rule::Val, children: node_vec1(child) });
    proof {
        lemma_nv1(node->Rule_0.children@[0]);
    }
    node
}

/// The right-leaning spine a sequence of members forms under a
/// right-recursive rule: the last member stands alone, every other member
/// is paired with the spine of the rest.
pub open spec fn spec_spine(rule: Rule, items: Seq<NodeModel>) -> NodeModel
    decreases items.len(),
{
    if items.len() <= 1 {
        NodeModel::Rule(rule, items)
    } else {
        NodeModel::Rule(
            rule,
            seq![items[0], spec_spine(rule, items.subrange(1, items.len() as int))],
        )
    }
}

/// Build the right-leaning spine of `rule` over the members, which must be
/// at least one.
fn spine_node(rule: Rule, items: Vec<Node>) -> (r: InterpreteResult<Node>)
    ensures
        r matches Ok(node) ==> items@.len() >= 1 && node@ == spec_spine(rule, nodes_view(items@)),
        r is Err ==> items@.len() == 0,
{
    let ghost m0 = nodes_view(items@);
    let ghost orig = items@;
    proof {
        lemma_nodes_view_elts(items@);
    }
    let mut items = items;
    let last = match items.pop() {
        Some(x) => x,
        None => {
            return Err(InterpretError::msg("A spine needs at least one member"));
        },
    };
    let ghost lm = last@;
    let mut node = Node::Rule(RuleNodeData { rule, children: node_vec1(last) });
    proof {
        lemma_nv1(node->Rule_0.children@[0]);
        assert(m0.subrange(m0.len() - 1, m0.len() as int) =~= seq![lm]);
        assert(node@ == spec_spine(rule, m0.subrange(m0.len() - 1, m0.len() as int)));
        lemma_nodes_view_elts(items@);
        assert forall|j: int| 0 <= j < items@.len() implies nodes_view(items@)[j] == m0.take(
            items@.len() as int,
        )[j] by {
            assert(items@[j] == orig[j]);
            assert(nodes_view(items@)[j] == node_view(items@[j]));
            assert(m0[j] == node_view(orig[j]));
        }
        assert(nodes_view(items@) =~= m0.take(items@.len() as int));
    }
    while items.len() > 0
        invariant
            items@.len() < m0.len(),
            nodes_view(items@) =~= m0.take(items@.len() as int),
            node@ == spec_spine(rule, m0.subrange(items@.len() as int, m0.len() as int)),
        decreases items@.len(),
    {
        let ghost k = items@.len() as int;
        let ghost pre = items@;
        let it = match items.pop() {
            Some(x) => x,
            None => {
                return Err(InterpretError::msg("A spine needs at least one member"));
            },
        };
        let ghost im = it@;
        let prev = node;
        let ghost pm = prev@;
        node = Node::Rule(RuleNodeData { rule, children: node_vec2(it, prev) });
        proof {
            lemma_nodes_view_elts(pre);
            lemma_nodes_view_elts(items@);
            assert(nodes_view(items@) =~= m0.take(items@.len() as int)) by {
                assert forall|j: int| 0 <= j < items@.len() implies nodes_view(items@)[j] == m0.take(
                    items@.len() as int,
                )[j] by {
                    assert(items@[j] == pre[j]);
                    assert(nodes_view(pre)[j] == node_view(pre[j]));
                    assert(m0.take(k)[j] == m0[j]);
                }
            }
            assert(im == nodes_view(pre)[k - 1]);
            assert(im == m0[k - 1]);
            lemma_nv2(node->Rule_0.children@[0], node->Rule_0.children@[1]);
            let rest = m0.subrange(k - 1, m0.len() as int);
            assert(rest.len() >= 2);
            assert(rest[0] == m0[k - 1]);
            assert(rest.subrange(1, rest.len() as int) =~= m0.subrange(k, m0.len() as int));
            assert(node@ == spec_spine(rule, rest));
        }
    }
    proof {
        assert(m0.subrange(0, m0.len() as int) =~= m0);
    }
    Ok(node)
}

/// A `List` node over its member values: the right-leaning `ListBody` spine
/// wrapped in a `List` node. The member list must not be empty.
pub fn list_node(items: Vec<Node>) -> (r: InterpreteResult<Node>)
    ensures
        r matches Ok(node) ==> items@.len() >= 1 && node@ == NodeModel::Rule(
            Rule::List,
            seq![spec_spine(Rule::ListBody, nodes_view(items@))],
        ),
        r is Err ==> items@.len() == 0,
{
    let ghost m0 = nodes_view(items@);
    let body = spine_node(Rule::ListBody, items)?;
    let ghost bm = body@;
    let node = Node::Rule(RuleNodeData { rule: Rule::List, children: node_vec1(body) });
    proof {
        lemma_nv1(node->Rule_0.children@[0]);
    }
    Ok(node)
}

/// A `FuncCall` node: the operator leaf beside the right-leaning `Args`
/// spine of its arguments. The argument list must not be empty.
pub fn func_call_node(func: ReservedIdent, args: Vec<Node>) -> (r: InterpreteResult<Node>)
    ensures
        r matches Ok(node) ==> args@.len() >= 1 && node@ == NodeModel::Rule(
            Rule::FuncCall,
            seq![
                NodeModel::Leaf(TokenModel::Reserved(func)),
                spec_spine(Rule::Args, nodes_view(args@)),
            ],
        ),
        r is Err ==> args@.len() == 0,
{
    let ghost m0 = nodes_view(args@);
    let spine = spine_node(Rule::Args, args)?;
    let ghost sm = spine@;
    let node = Node::Rule(
        RuleNodeData {
            rule: Rule::FuncCall,
            children: node_vec2(Node::Leaf(Token::Reserved(func)), spine),
        },
    );
    proof {
        lemma_nv2(node->Rule_0.children@[0], node->Rule_0.children@[1]);
    }
    Ok(node)
}

/// A whole-program tree around one `Val` or `FuncCall` node: the node
/// wrapped in `ExprBody`, `Expr` and `Prog`. Any other node is rejected.
pub fn prog_node(child: Node) -> (r: InterpreteResult<Node>)
    ensures
        r matches Ok(node) ==> ((child@ matches NodeModel::Rule(Rule::Val, _)) || (child@ matches
            NodeModel::Rule(Rule::FuncCall, _))) && node@ == NodeModel::Rule(
            Rule::Prog,
            seq![
                NodeModel::Rule(
                    Rule::Expr,
                    seq![NodeModel::Rule(Rule::ExprBody, seq![child@])],
                ),
            ],
        ),
        r is Err ==> !((child@ matches NodeModel::Rule(Rule::Val, _)) || (child@ matches
            NodeModel::Rule(Rule::FuncCall, _))),
{
    if !child.is_val() && !child.is_func_call() {
        return Err(InterpretError::msg("A program node wraps a Val or FuncCall node"));
    }
    let ghost cm = child@;
    let body = Node::Rule(RuleNodeData { rule: Rule::ExprBody, children: node_vec1(child) });
    proof {
        lemma_nv1(body->Rule_0.children@[0]);
    }
    let ghost bm = body@;
    let expr = Node::Rule(RuleNodeData { rule: Rule::Expr, children: node_vec1(body) });
    proof {
        lemma_nv1(expr->Rule_0.children@[0]);
    }
    let ghost em = expr@;
    let prog = Node::Rule(RuleNodeData { rule: Rule::Prog, children: node_vec1(expr) });
    proof {
        lemma_nv1(prog->Rule_0.children@[0]);
    }
    Ok(prog)
}

} // verus!

verus! {

/// A successful parse never passes over trailing tokens: the whole parsed
/// program is followed, at exactly the count it reports, by the
/// end-of-stream token, and everything before that position was consumed as
/// part of the program.
pub proof fn lemma_parse_consumes_to_eof(ts: Seq<TokenModel>)
    ensures
        spec_parse_prog(ts) matches Some(p) ==> 0 < p.1 < ts.len() && ts[p.1] is EOF,
{
    match spec_parse_expr(ts, 0) {
        Some((child, j)) => {
            lemma_parse_expr_bounds(ts, 0);
        },
        None => {},
    }
}

} // verus!

verus! {

/// The surface token sequence a tree derives: parenthesised rules put their
/// delimiters back around their children's texts; every other rule node
/// concatenates its children's texts; a leaf is its token.
pub open spec fn tree_text(n: NodeModel) -> Seq<TokenModel>
    decreases n,
{
    match n {
        NodeModel::Leaf(t) => seq![t],
        NodeModel::Rule(r, ch) => {
            if r == Rule::Expr {
                seq![TokenModel::LParen] + trees_text(ch) + seq![TokenModel::RParen]
            } else if r == Rule::List {
                seq![TokenModel::LBrack] + trees_text(ch) + seq![TokenModel::RBrack]
            } else {
                trees_text(ch)
            }
        },
    }
}

/// The concatenated texts of a node sequence.
pub open spec fn trees_text(s: Seq<NodeModel>) -> Seq<TokenModel>
    decreases s,
{
    if s.len() == 0 {
        Seq::empty()
    } else {
        tree_text(s[0]) + trees_text(s.subrange(1, s.len() as int))
    }
}

proof fn lemma_trees_text1(a: NodeModel)
    ensures
        trees_text(seq![a]) =~= tree_text(a),
{
    assert(seq![a].subrange(1, 1) =~= Seq::<NodeModel>::empty());
    assert(trees_text(Seq::<NodeModel>::empty()).len() == 0);
    assert(seq![a][0] == a);
    assert(tree_text(a) + Seq::<TokenModel>::empty() =~= tree_text(a));
}

proof fn lemma_trees_text2(a: NodeModel, b: NodeModel)
    ensures
        trees_text(seq![a, b]) =~= tree_text(a) + tree_text(b),
{
    assert(seq![a, b].subrange(1, 2) =~= seq![b]);
    lemma_trees_text1(b);
    assert(seq![a, b][0] == a);
}

proof fn lemma_sound_expr(ts: Seq<TokenModel>, i: int)
    requires
        0 <= i,
    ensures
        spec_parse_expr(ts, i) matches Some(p) ==> tree_text(p.0) =~= ts.subrange(i, p.1),
    decreases ts.len() - i, 2int,
{
    if i < ts.len() && ts[i] is LParen {
        lemma_sound_expr_body(ts, i + 1);
        lemma_parse_expr_body_bounds(ts, i + 1);
        match spec_parse_expr_body(ts, i + 1) {
            Some((body, j)) => {
                if j < ts.len() && ts[j] is RParen {
                    lemma_trees_text1(body);
                    assert(seq![TokenModel::LParen] + tree_text(body) + seq![TokenModel::RParen]
                        =~= ts.subrange(i, j + 1)) by {
                        assert(tree_text(body) =~= ts.subrange(i + 1, j));
                        assert(ts[i] == TokenModel::LParen);
                        assert(ts[j] == TokenModel::RParen);
                    }
                }
            },
            None => {},
        }
    }
}

proof fn lemma_sound_expr_body(ts: Seq<TokenModel>, i: int)
    requires
        0 <= i,
    ensures
        spec_parse_expr_body(ts, i) matches Some(p) ==> tree_text(p.0) =~= ts.subrange(i, p.1),
    decreases ts.len() - i, 6int,
{
    if i < ts.len() {
        if ts[i] is Reserved {
            lemma_sound_func_call(ts, i);
            match spec_parse_func_call(ts, i) {
                Some((child, j)) => {
                    lemma_trees_text1(child);
                },
                None => {},
            }
        } else if is_val_start(ts[i]) {
            lemma_sound_val(ts, i);
            match spec_parse_val(ts, i) {
                Some((child, j)) => {
                    lemma_trees_text1(child);
                },
                None => {},
            }
        }
    }
}

proof fn lemma_sound_func_call(ts: Seq<TokenModel>, i: int)
    requires
        0 <= i,
    ensures
        spec_parse_func_call(ts, i) matches Some(p) ==> tree_text(p.0) =~= ts.subrange(i, p.1),
    decreases ts.len() - i, 5int,
{
    if i < ts.len() {
        match ts[i] {
            TokenModel::Reserved(f) => {
                lemma_sound_args(ts, i + 1);
                lemma_parse_args_bounds(ts, i + 1);
                match spec_parse_args(ts, i + 1) {
                    Some((args, j)) => {
                        lemma_trees_text2(NodeModel::Leaf(TokenModel::Reserved(f)), args);
                        lemma_trees_text1(NodeModel::Leaf(TokenModel::Reserved(f)));
                        assert(seq![TokenModel::Reserved(f)] + ts.subrange(i + 1, j) =~= ts.subrange(
                            i,
                            j,
                        ));
                    },
                    None => {},
                }
            },
            _ => {},
        }
    }
}

proof fn lemma_sound_args(ts: Seq<TokenModel>, i: int)
    requires
        0 <= i,
    ensures
        spec_parse_args(ts, i) matches Some(p) ==> tree_text(p.0) =~= ts.subrange(i, p.1),
    decreases ts.len() - i, 7int,
{
    if i < ts.len() && is_val_start(ts[i]) {
        lemma_sound_val(ts, i);
        lemma_parse_val_bounds(ts, i);
        match spec_parse_val(ts, i) {
            Some((val, j)) => {
                if j < ts.len() {
                    if ts[j] is RParen {
                        lemma_trees_text1(val);
                    } else if i < j {
                        lemma_sound_args(ts, j);
                        lemma_parse_args_bounds(ts, j);
                        match spec_parse_args(ts, j) {
                            Some((tail, k)) => {
                                lemma_trees_text2(val, tail);
                                assert(ts.subrange(i, j) + ts.subrange(j, k) =~= ts.subrange(i, k));
                            },
                            None => {},
                        }
                    }
                }
            },
            None => {},
        }
    }
}

proof fn lemma_sound_val(ts: Seq<TokenModel>, i: int)
    requires
        0 <= i,
    ensures
        spec_parse_val(ts, i) matches Some(p) ==> tree_text(p.0) =~= ts.subrange(i, p.1),
    decreases ts.len() - i, 4int,
{
    if i < ts.len() {
        if ts[i] is LBrack {
            lemma_sound_list(ts, i);
            match spec_parse_list(ts, i) {
                Some((child, j)) => {
                    lemma_trees_text1(child);
                },
                None => {},
            }
        } else if ts[i] is LParen {
            lemma_sound_expr(ts, i);
            match spec_parse_expr(ts, i) {
                Some((child, j)) => {
                    lemma_trees_text1(child);
                },
                None => {},
            }
        } else if is_terminal_val(ts[i]) {
            lemma_trees_text1(NodeModel::Leaf(ts[i]));
            assert(seq![ts[i]] =~= ts.subrange(i, i + 1));
        }
    }
}

proof fn lemma_sound_list(ts: Seq<TokenModel>, i: int)
    requires
        0 <= i,
    ensures
        spec_parse_list(ts, i) matches Some(p) ==> tree_text(p.0) =~= ts.subrange(i, p.1),
    decreases ts.len() - i, 2int,
{
    if i < ts.len() && ts[i] is LBrack {
        lemma_sound_list_body(ts, i + 1);
        lemma_parse_list_body_bounds(ts, i + 1);
        match spec_parse_list_body(ts, i + 1) {
            Some((body, j)) => {
                if j < ts.len() && ts[j] is RBrack {
                    lemma_trees_text1(body);
                    assert(seq![TokenModel::LBrack] + tree_text(body) + seq![TokenModel::RBrack]
                        =~= ts.subrange(i, j + 1)) by {
                        assert(tree_text(body) =~= ts.subrange(i + 1, j));
                        assert(ts[i] == TokenModel::LBrack);
                        assert(ts[j] == TokenModel::RBrack);
                    }
                }
            },
            None => {},
        }
    }
}

proof fn lemma_sound_list_body(ts: Seq<TokenModel>, i: int)
    requires
        0 <= i,
    ensures
        spec_parse_list_body(ts, i) matches Some(p) ==> tree_text(p.0) =~= ts.subrange(i, p.1),
    decreases ts.len() - i, 7int,
{
    if i < ts.len() && is_val_start(ts[i]) {
        lemma_sound_val(ts, i);
        lemma_parse_val_bounds(ts, i);
        match spec_parse_val(ts, i) {
            Some((val, j)) => {
                if j < ts.len() {
                    if ts[j] is RBrack {
                        lemma_trees_text1(val);
                    } else if i < j {
                        lemma_sound_list_body(ts, j);
                        lemma_parse_list_body_bounds(ts, j);
                        match spec_parse_list_body(ts, j) {
                            Some((tail, k)) => {
                                lemma_trees_text2(val, tail);
                                assert(ts.subrange(i, j) + ts.subrange(j, k) =~= ts.subrange(i, k));
                            },
                            None => {},
                        }
                    }
                }
            },
            None => {},
        }
    }
}

/// Grammar soundness of the parser: a successfully parsed program's tree
/// derives exactly the tokens that were consumed — putting the tree's
/// leaves back in order, with the parentheses and brackets its rules stand
/// for, reproduces the input up to the reported count.
pub proof fn lemma_parse_prog_sound(ts: Seq<TokenModel>)
    ensures
        spec_parse_prog(ts) matches Some(p) ==> tree_text(p.0) =~= ts.subrange(0, p.1),
{
    lemma_sound_expr(ts, 0);
    match spec_parse_expr(ts, 0) {
        Some((child, j)) => {
            if j < ts.len() && ts[j] is EOF {
                lemma_trees_text1(child);
            }
        },
        None => {},
    }
}

} // verus!
