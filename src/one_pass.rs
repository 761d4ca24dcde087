use vstd::prelude::*;

use crate::lexer::{NumericConstant, Span, Token, TokenKind};

verus! {

/// The operator between two operands of an expression chain.
///
/// `Not` is kept in the type but no token produces it: a chain only holds
/// binary operators, so a prefix negation has no place in it.
#[derive(Clone, Copy, Debug, PartialEq, Eq, Structural)]
pub enum BooleanOp {
    And,
    Not,
    Or,
    GT,
    LT,
    Eq,
    NGT,
    NLT,
    NEq,
    Add,
    Sub,
    Mul,
    Div,
}

#[derive(Clone, Debug, PartialEq, Eq)]
pub enum LiteralValue {
    Integer(i32),
    QuotedStr(String),
    Name(String),
}

#[derive(Debug)]
pub enum Node {
    IfStatement { test: Box<Node>, body: Vec<Node> },
    ReturnStatement(Box<Node>),
    Expression { start: Box<Node>, body: Vec<(BooleanOp, Node)> },
    FunctionDeclaration { name: String, params: Vec<String>, body: Vec<Node> },
    VariableAssignment { lhs: String, rhs: Box<Node> },
    Literal(LiteralValue),
}

/// Why parsing stopped.
#[derive(Clone, Copy, Debug, PartialEq, Eq, Structural)]
pub enum ParseError {
    /// A token that the grammar does not allow where it stands.
    UnexpectedToken(Span),
    /// The tokens ran out inside a construct; the span is that of the last token.
    UnexpectedEnd(Span),
}

// ---------------------------------------------------------------------------
// The grammar, over token positions. Each function gives the position just
// after the construct that begins at `p`, or the position of the first token
// that does not fit (the number of tokens where they ran out).
//
//   program    := statement*
//   statement  := 'var' NAME '=' expr ';'
//               | 'return' expr ';'
//               | 'if' expr block
//               | 'proc' NAME '(' [NAME (',' NAME)*] ')' block
//               | expr [';']
//   block      := 'begin' statement* 'end'
//   expr       := operand (op operand)*        (a flat chain, left to right)
//   operand    := NUMBER | STRING | NAME | '(' expr ')'
//   op         := '+' | '-' | '*' | '/' | '='

pub open spec fn is_op(k: TokenKind) -> bool {
    k is Plus || k is Minus || k is Multiply || k is Divide || k is Equals
}

pub open spec fn op_of(k: TokenKind) -> BooleanOp {
    match k {
        TokenKind::Plus => BooleanOp::Add,
        TokenKind::Minus => BooleanOp::Sub,
        TokenKind::Multiply => BooleanOp::Mul,
        TokenKind::Divide => BooleanOp::Div,
        _ => BooleanOp::Eq,
    }
}

pub open spec fn is_literal(k: TokenKind) -> bool {
    k is Name || k is Number || k is QuotedString
}

pub open spec fn operand_end(t: Seq<Token>, p: int) -> Result<int, int>
    decreases t.len() - p, 0int,
{
    if p < 0 || p >= t.len() {
        Err(p)
    } else if is_literal(t[p].kind) {
        Ok(p + 1)
    } else if t[p].kind is LParen {
        match expr_end(t, p + 1) {
            Ok(q) => if p < q < t.len() && t[q].kind is RParen {
                Ok(q + 1)
            } else {
                Err(q)
            },
            Err(e) => Err(e),
        }
    } else {
        Err(p)
    }
}

pub open spec fn expr_end(t: Seq<Token>, p: int) -> Result<int, int>
    decreases t.len() - p, 1int,
{
    if p < 0 || p > t.len() {
        Err(p)
    } else {
        match operand_end(t, p) {
            Ok(q) => if p < q <= t.len() {
                chain_end(t, q)
            } else {
                Err(q)
            },
            Err(e) => Err(e),
        }
    }
}

pub open spec fn chain_end(t: Seq<Token>, q: int) -> Result<int, int>
    decreases t.len() - q, 2int,
{
    if 0 <= q < t.len() && is_op(t[q].kind) {
        match operand_end(t, q + 1) {
            Ok(r) => if q < r <= t.len() {
                chain_end(t, r)
            } else {
                Err(r)
            },
            Err(e) => Err(e),
        }
    } else {
        Ok(q)
    }
}

/// The end of a statement that a `;` must close.
pub open spec fn terminated(t: Seq<Token>, r: Result<int, int>) -> Result<int, int> {
    match r {
        Ok(q) => if 0 <= q < t.len() && t[q].kind is Semicolon {
            Ok(q + 1)
        } else {
            Err(q)
        },
        Err(e) => Err(e),
    }
}

/// The end of a parameter list after its `(`.
pub open spec fn params_end(t: Seq<Token>, p: int) -> Result<int, int> {
    if p < 0 || p >= t.len() {
        Err(p)
    } else if t[p].kind is RParen {
        Ok(p + 1)
    } else if t[p].kind is Name {
        params_rest_end(t, p + 1)
    } else {
        Err(p)
    }
}

/// The end of a parameter list after one of its names.
pub open spec fn params_rest_end(t: Seq<Token>, p: int) -> Result<int, int>
    decreases t.len() - p,
{
    if p < 0 || p >= t.len() {
        Err(p)
    } else if t[p].kind is RParen {
        Ok(p + 1)
    } else if t[p].kind is Comma {
        if p + 1 < t.len() && t[p + 1].kind is Name {
            params_rest_end(t, p + 2)
        } else {
            Err(p + 1)
        }
    } else {
        Err(p)
    }
}

pub open spec fn starts_expr(k: TokenKind) -> bool {
    is_literal(k) || k is LParen
}

pub open spec fn statement_end(t: Seq<Token>, p: int) -> Result<int, int>
    decreases t.len() - p, 3int,
{
    if p < 0 || p >= t.len() {
        Err(p)
    } else {
        match t[p].kind {
            TokenKind::Var => if !(p + 1 < t.len() && t[p + 1].kind is Name) {
                Err(p + 1)
            } else if !(p + 2 < t.len() && t[p + 2].kind is Equals) {
                Err(p + 2)
            } else {
                terminated(t, expr_end(t, p + 3))
            },
            TokenKind::Return => terminated(t, expr_end(t, p + 1)),
            TokenKind::If => match expr_end(t, p + 1) {
                Ok(q) => if p < q <= t.len() {
                    block_end(t, q)
                } else {
                    Err(q)
                },
                Err(e) => Err(e),
            },
            TokenKind::Proc => if !(p + 1 < t.len() && t[p + 1].kind is Name) {
                Err(p + 1)
            } else if !(p + 2 < t.len() && t[p + 2].kind is LParen) {
                Err(p + 2)
            } else {
                match params_end(t, p + 3) {
                    Ok(q) => if p < q <= t.len() {
                        block_end(t, q)
                    } else {
                        Err(q)
                    },
                    Err(e) => Err(e),
                }
            },
            _ => if starts_expr(t[p].kind) {
                match expr_end(t, p) {
                    Ok(q) => if 0 <= q < t.len() && t[q].kind is Semicolon {
                        Ok(q + 1)
                    } else {
                        Ok(q)
                    },
                    Err(e) => Err(e),
                }
            } else {
                Err(p)
            },
        }
    }
}

pub open spec fn block_end(t: Seq<Token>, p: int) -> Result<int, int>
    decreases t.len() - p, 4int,
{
    if 0 <= p < t.len() && t[p].kind is Begin {
        body_end(t, p + 1)
    } else {
        Err(p)
    }
}

/// The end of a block after its `begin`: statements up to and including `end`.
pub open spec fn body_end(t: Seq<Token>, p: int) -> Result<int, int>
    decreases t.len() - p, 5int,
{
    if p < 0 || p >= t.len() {
        Err(p)
    } else if t[p].kind is End {
        Ok(p + 1)
    } else {
        match statement_end(t, p) {
            Ok(q) => if p < q <= t.len() {
                body_end(t, q)
            } else {
                Err(q)
            },
            Err(e) => Err(e),
        }
    }
}

/// The end of the statements from `p` to the end of the tokens.
pub open spec fn program_end(t: Seq<Token>, p: int) -> Result<int, int>
    decreases t.len() - p,
{
    if p < 0 || p >= t.len() {
        Ok(p)
    } else {
        match statement_end(t, p) {
            Ok(q) => if p < q <= t.len() {
                program_end(t, q)
            } else {
                Err(q)
            },
            Err(e) => Err(e),
        }
    }
}

// ---------------------------------------------------------------------------
// The tree that each construct builds.

pub open spec fn name_text(k: TokenKind) -> Seq<char> {
    match k {
        TokenKind::Name(s) => s@,
        _ => Seq::empty(),
    }
}

/// The literal node of a number, string or name token.
pub open spec fn literal_matches(k: TokenKind, n: Node) -> bool {
    match k {
        TokenKind::Number(NumericConstant::Integer(v)) => n == Node::Literal(LiteralValue::Integer(v)),
        TokenKind::Name(s) => match n {
            Node::Literal(LiteralValue::Name(x)) => x@ == s@,
            _ => false,
        },
        TokenKind::QuotedString(s) => match n {
            Node::Literal(LiteralValue::QuotedStr(x)) => x@ == s@,
            _ => false,
        },
        _ => false,
    }
}

/// An operand is a literal, or the node of the expression in parentheses.
pub open spec fn operand_node(t: Seq<Token>, p: int, n: Node) -> bool
    decreases t.len() - p, 0int,
{
    if p < 0 || p >= t.len() {
        false
    } else if is_literal(t[p].kind) {
        literal_matches(t[p].kind, n)
    } else if t[p].kind is LParen {
        expr_node(t, p + 1, n)
    } else {
        false
    }
}

/// A lone operand stands for itself; with operators after it, the node is an
/// `Expression` chain.
pub open spec fn expr_node(t: Seq<Token>, p: int, n: Node) -> bool
    decreases t.len() - p, 1int,
{
    if p < 0 || p > t.len() {
        false
    } else {
        match operand_end(t, p) {
            Ok(q) => if p < q <= t.len() {
                if q < t.len() && is_op(t[q].kind) {
                    match n {
                        Node::Expression { start, body } => operand_node(t, p, *start)
                            && chain_nodes(t, q, body@),
                        _ => false,
                    }
                } else {
                    operand_node(t, p, n)
                }
            } else {
                false
            },
            Err(_) => false,
        }
    }
}

/// The (operator, operand) pairs of a chain, in the order of the tokens.
pub open spec fn chain_nodes(t: Seq<Token>, q: int, body: Seq<(BooleanOp, Node)>) -> bool
    decreases t.len() - q, 2int,
{
    if 0 <= q < t.len() && is_op(t[q].kind) {
        &&& body.len() > 0
        &&& body[0].0 == op_of(t[q].kind)
        &&& operand_node(t, q + 1, body[0].1)
        &&& match operand_end(t, q + 1) {
            Ok(r) => q < r <= t.len() && chain_nodes(t, r, body.drop_first()),
            Err(_) => false,
        }
    } else {
        body.len() == 0
    }
}

pub open spec fn params_rest_names(t: Seq<Token>, p: int, ps: Seq<String>) -> bool
    decreases t.len() - p,
{
    if p < 0 || p >= t.len() {
        false
    } else if t[p].kind is RParen {
        ps.len() == 0
    } else if t[p].kind is Comma && p + 1 < t.len() {
        &&& ps.len() > 0
        &&& ps[0]@ == name_text(t[p + 1].kind)
        &&& params_rest_names(t, p + 2, ps.drop_first())
    } else {
        false
    }
}

pub open spec fn params_names(t: Seq<Token>, p: int, ps: Seq<String>) -> bool {
    if p < 0 || p >= t.len() {
        false
    } else if t[p].kind is RParen {
        ps.len() == 0
    } else {
        &&& ps.len() > 0
        &&& ps[0]@ == name_text(t[p].kind)
        &&& params_rest_names(t, p + 1, ps.drop_first())
    }
}

pub open spec fn statement_node(t: Seq<Token>, p: int, n: Node) -> bool
    decreases t.len() - p, 3int,
{
    if p < 0 || p >= t.len() {
        false
    } else {
        match t[p].kind {
            TokenKind::Var => match n {
                Node::VariableAssignment { lhs, rhs } => p + 3 <= t.len() && lhs@ == name_text(
                    t[p + 1].kind,
                ) && expr_node(t, p + 3, *rhs),
                _ => false,
            },
            TokenKind::Return => match n {
                Node::ReturnStatement(e) => expr_node(t, p + 1, *e),
                _ => false,
            },
            TokenKind::If => match n {
                Node::IfStatement { test, body } => expr_node(t, p + 1, *test) && match expr_end(
                    t,
                    p + 1,
                ) {
                    Ok(q) => p < q <= t.len() && block_nodes(t, q, body@),
                    Err(_) => false,
                },
                _ => false,
            },
            TokenKind::Proc => match n {
                Node::FunctionDeclaration { name, params, body } => p + 3 <= t.len() && name@
                    == name_text(t[p + 1].kind) && params_names(t, p + 3, params@) && match params_end(
                    t,
                    p + 3,
                ) {
                    Ok(q) => p < q <= t.len() && block_nodes(t, q, body@),
                    Err(_) => false,
                },
                _ => false,
            },
            _ => expr_node(t, p, n),
        }
    }
}

pub open spec fn block_nodes(t: Seq<Token>, p: int, body: Seq<Node>) -> bool
    decreases t.len() - p, 4int,
{
    0 <= p < t.len() && t[p].kind is Begin && body_nodes(t, p + 1, body)
}

pub open spec fn body_nodes(t: Seq<Token>, p: int, body: Seq<Node>) -> bool
    decreases t.len() - p, 5int,
{
    if p < 0 || p >= t.len() {
        false
    } else if t[p].kind is End {
        body.len() == 0
    } else {
        &&& body.len() > 0
        &&& statement_node(t, p, body[0])
        &&& match statement_end(t, p) {
            Ok(q) => p < q <= t.len() && body_nodes(t, q, body.drop_first()),
            Err(_) => false,
        }
    }
}

pub open spec fn program_nodes(t: Seq<Token>, p: int, nodes: Seq<Node>) -> bool
    decreases t.len() - p,
{
    if p < 0 || p >= t.len() {
        nodes.len() == 0
    } else {
        &&& nodes.len() > 0
        &&& statement_node(t, p, nodes[0])
        &&& match statement_end(t, p) {
            Ok(q) => p < q <= t.len() && program_nodes(t, q, nodes.drop_first()),
            Err(_) => false,
        }
    }
}

// ---------------------------------------------------------------------------
// The parser.

fn op_token(k: &TokenKind) -> (r: Option<BooleanOp>)
    ensures
        is_op(*k) ==> r == Some(op_of(*k)),
        !is_op(*k) ==> r is None,
{
    match k {
        TokenKind::Plus => Some(BooleanOp::Add),
        TokenKind::Minus => Some(BooleanOp::Sub),
        TokenKind::Multiply => Some(BooleanOp::Mul),
        TokenKind::Divide => Some(BooleanOp::Div),
        TokenKind::Equals => Some(BooleanOp::Eq),
        _ => None,
    }
}

fn parse_operand(t: &Vec<Token>, p: usize) -> (r: Result<(Node, usize), usize>)
    requires
        p <= t@.len(),
    ensures
        match r {
            Ok((n, q)) => operand_end(t@, p as int) == Ok::<int, int>(q as int) && p < q
                <= t@.len() && operand_node(t@, p as int, n),
            Err(e) => operand_end(t@, p as int) == Err::<int, int>(e as int) && e <= t@.len(),
        },
    decreases t@.len() - p, 0int,
{
    if p >= t.len() {
        return Err(p);
    }
    match &t[p].kind {
        TokenKind::Number(NumericConstant::Integer(v)) => Ok(
            (Node::Literal(LiteralValue::Integer(*v)), p + 1),
        ),
        TokenKind::Name(s) => Ok((Node::Literal(LiteralValue::Name(s.clone())), p + 1)),
        TokenKind::QuotedString(s) => Ok((Node::Literal(LiteralValue::QuotedStr(s.clone())), p + 1)),
        TokenKind::LParen => {
            match parse_expr(t, p + 1) {
                Ok((n, q)) => {
                    if q < t.len() && matches!(t[q].kind, TokenKind::RParen) {
                        Ok((n, q + 1))
                    } else {
                        Err(q)
                    }
                },
                Err(e) => Err(e),
            }
        },
        _ => Err(p),
    }
}

fn parse_expr(t: &Vec<Token>, p: usize) -> (r: Result<(Node, usize), usize>)
    requires
        p <= t@.len(),
    ensures
        match r {
            Ok((n, q)) => expr_end(t@, p as int) == Ok::<int, int>(q as int) && p < q <= t@.len()
                && expr_node(t@, p as int, n),
            Err(e) => expr_end(t@, p as int) == Err::<int, int>(e as int) && e <= t@.len(),
        },
    decreases t@.len() - p, 1int,
{
    match parse_operand(t, p) {
        Ok((first, q)) => {
            match parse_chain(t, q) {
                Ok((body, r)) => {
                    if body.len() == 0 {
                        Ok((first, r))
                    } else {
                        Ok((Node::Expression { start: Box::new(first), body }, r))
                    }
                },
                Err(e) => Err(e),
            }
        },
        Err(e) => Err(e),
    }
}

fn parse_chain(t: &Vec<Token>, q: usize) -> (r: Result<(Vec<(BooleanOp, Node)>, usize), usize>)
    requires
        q <= t@.len(),
    ensures
        match r {
            Ok((body, s)) => chain_end(t@, q as int) == Ok::<int, int>(s as int) && q <= s
                <= t@.len() && chain_nodes(t@, q as int, body@),
            Err(e) => chain_end(t@, q as int) == Err::<int, int>(e as int) && e <= t@.len(),
        },
    decreases t@.len() - q, 2int,
{
    let mut body: Vec<(BooleanOp, Node)> = Vec::new();
    let mut k: usize = q;
    loop
        invariant
            q <= k <= t@.len(),
            chain_end(t@, q as int) == chain_end(t@, k as int),
            forall|rest: Seq<(BooleanOp, Node)>|
                chain_nodes(t@, k as int, rest) ==> #[trigger] chain_nodes(
                    t@,
                    q as int,
                    body@ + rest,
                ),
        decreases t@.len() - k,
    {
        let op = if k < t.len() {
            op_token(&t[k].kind)
        } else {
            None
        };
        match op {
            Some(op) => {
                match parse_operand(t, k + 1) {
                    Ok((n, r)) => {
                        let ghost done = body@;
                        proof {
                            assert forall|rest: Seq<(BooleanOp, Node)>|
                                chain_nodes(t@, r as int, rest) implies #[trigger] chain_nodes(
                                t@,
                                q as int,
                                done.push((op, n)) + rest,
                            ) by {
                                let longer = seq![(op, n)] + rest;
                                assert(longer.drop_first() =~= rest);
                                assert(chain_nodes(t@, k as int, longer));
                                assert(done + longer =~= done.push((op, n)) + rest);
                            }
                        }
                        body.push((op, n));
                        k = r;
                    },
                    Err(e) => {
                        return Err(e);
                    },
                }
            },
            None => {
                proof {
                    assert(chain_nodes(t@, k as int, Seq::<(BooleanOp, Node)>::empty()));
                    assert(body@ + Seq::<(BooleanOp, Node)>::empty() =~= body@);
                }
                return Ok((body, k));
            },
        }
    }
}

fn name_of(k: &TokenKind) -> (r: Option<String>)
    ensures
        k is Name ==> r is Some && r->0@ == name_text(*k),
        !(k is Name) ==> r is None,
{
    match k {
        TokenKind::Name(s) => Some(s.clone()),
        _ => None,
    }
}

/// Reads the names of a parameter list after one of them, up to `)`.
fn parse_params_rest(t: &Vec<Token>, p: usize) -> (r: Result<(Vec<String>, usize), usize>)
    requires
        p <= t@.len(),
    ensures
        match r {
            Ok((ps, q)) => params_rest_end(t@, p as int) == Ok::<int, int>(q as int) && p < q
                <= t@.len() && params_rest_names(t@, p as int, ps@),
            Err(e) => params_rest_end(t@, p as int) == Err::<int, int>(e as int) && e <= t@.len(),
        },
    decreases t@.len() - p,
{
    if p >= t.len() {
        return Err(p);
    }
    if matches!(t[p].kind, TokenKind::RParen) {
        return Ok((Vec::new(), p + 1));
    }
    if !matches!(t[p].kind, TokenKind::Comma) {
        return Err(p);
    }
    if p + 1 >= t.len() {
        return Err(p + 1);
    }
    match name_of(&t[p + 1].kind) {
        Some(name) => {
            match parse_params_rest(t, p + 2) {
                Ok((rest, q)) => {
                    let ghost old_rest = rest@;
                    let mut ps = rest;
                    ps.insert(0, name);
                    assert(ps@.drop_first() =~= old_rest);
                    Ok((ps, q))
                },
                Err(e) => Err(e),
            }
        },
        None => Err(p + 1),
    }
}

/// Reads a parameter list after its `(`, up to `)`.
fn parse_params(t: &Vec<Token>, p: usize) -> (r: Result<(Vec<String>, usize), usize>)
    requires
        p <= t@.len(),
    ensures
        match r {
            Ok((ps, q)) => params_end(t@, p as int) == Ok::<int, int>(q as int) && p < q
                <= t@.len() && params_names(t@, p as int, ps@),
            Err(e) => params_end(t@, p as int) == Err::<int, int>(e as int) && e <= t@.len(),
        },
{
    if p >= t.len() {
        return Err(p);
    }
    if matches!(t[p].kind, TokenKind::RParen) {
        return Ok((Vec::new(), p + 1));
    }
    match name_of(&t[p].kind) {
        Some(name) => {
            match parse_params_rest(t, p + 1) {
                Ok((rest, q)) => {
                    let ghost old_rest = rest@;
                    let mut ps = rest;
                    ps.insert(0, name);
                    assert(ps@.drop_first() =~= old_rest);
                    Ok((ps, q))
                },
                Err(e) => Err(e),
            }
        },
        None => Err(p),
    }
}

/// Reads a `;` after the expression that `r` parsed.
fn expect_semicolon(t: &Vec<Token>, r: Result<(Node, usize), usize>) -> (out: Result<
    (Node, usize),
    usize,
>)
    requires
        match r {
            Ok((_, q)) => q <= t@.len(),
            Err(e) => e <= t@.len(),
        },
    ensures
        match r {
            Ok((n, q)) => match out {
                Ok((m, s)) => m == n && terminated(t@, Ok(q as int)) == Ok::<int, int>(s as int)
                    && s == q + 1,
                Err(e) => terminated(t@, Ok(q as int)) == Err::<int, int>(e as int) && e == q,
            },
            Err(e) => out == Err::<(Node, usize), usize>(e),
        },
{
    match r {
        Ok((n, q)) => {
            if q < t.len() && matches!(t[q].kind, TokenKind::Semicolon) {
                Ok((n, q + 1))
            } else {
                Err(q)
            }
        },
        Err(e) => Err(e),
    }
}

fn parse_statement(t: &Vec<Token>, p: usize) -> (r: Result<(Node, usize), usize>)
    requires
        p <= t@.len(),
    ensures
        match r {
            Ok((n, q)) => statement_end(t@, p as int) == Ok::<int, int>(q as int) && p < q
                <= t@.len() && statement_node(t@, p as int, n),
            Err(e) => statement_end(t@, p as int) == Err::<int, int>(e as int) && e <= t@.len(),
        },
    decreases t@.len() - p, 3int,
{
    if p >= t.len() {
        return Err(p);
    }
    match &t[p].kind {
        TokenKind::Var => {
            if p + 1 >= t.len() {
                return Err(p + 1);
            }
            let lhs = match name_of(&t[p + 1].kind) {
                Some(name) => name,
                None => {
                    return Err(p + 1);
                },
            };
            if !(p + 2 < t.len() && matches!(t[p + 2].kind, TokenKind::Equals)) {
                return Err(p + 2);
            }
            match expect_semicolon(t, parse_expr(t, p + 3)) {
                Ok((rhs, q)) => Ok((Node::VariableAssignment { lhs, rhs: Box::new(rhs) }, q)),
                Err(e) => Err(e),
            }
        },
        TokenKind::Return => {
            match expect_semicolon(t, parse_expr(t, p + 1)) {
                Ok((e, q)) => Ok((Node::ReturnStatement(Box::new(e)), q)),
                Err(e) => Err(e),
            }
        },
        TokenKind::If => {
            match parse_expr(t, p + 1) {
                Ok((test, q)) => {
                    match parse_block(t, q) {
                        Ok((body, s)) => Ok((Node::IfStatement { test: Box::new(test), body }, s)),
                        Err(e) => Err(e),
                    }
                },
                Err(e) => Err(e),
            }
        },
        TokenKind::Proc => {
            if p + 1 >= t.len() {
                return Err(p + 1);
            }
            let name = match name_of(&t[p + 1].kind) {
                Some(name) => name,
                None => {
                    return Err(p + 1);
                },
            };
            if !(p + 2 < t.len() && matches!(t[p + 2].kind, TokenKind::LParen)) {
                return Err(p + 2);
            }
            match parse_params(t, p + 3) {
                Ok((params, q)) => {
                    match parse_block(t, q) {
                        Ok((body, s)) => Ok((Node::FunctionDeclaration { name, params, body }, s)),
                        Err(e) => Err(e),
                    }
                },
                Err(e) => Err(e),
            }
        },
        TokenKind::Name(_) | TokenKind::Number(_) | TokenKind::QuotedString(_) | TokenKind::LParen => {
            match parse_expr(t, p) {
                Ok((n, q)) => {
                    if q < t.len() && matches!(t[q].kind, TokenKind::Semicolon) {
                        Ok((n, q + 1))
                    } else {
                        Ok((n, q))
                    }
                },
                Err(e) => Err(e),
            }
        },
        _ => Err(p),
    }
}

fn parse_block(t: &Vec<Token>, p: usize) -> (r: Result<(Vec<Node>, usize), usize>)
    requires
        p <= t@.len(),
    ensures
        match r {
            Ok((body, q)) => block_end(t@, p as int) == Ok::<int, int>(q as int) && p < q
                <= t@.len() && block_nodes(t@, p as int, body@),
            Err(e) => block_end(t@, p as int) == Err::<int, int>(e as int) && e <= t@.len(),
        },
    decreases t@.len() - p, 4int,
{
    if p < t.len() && matches!(t[p].kind, TokenKind::Begin) {
        parse_body(t, p + 1)
    } else {
        Err(p)
    }
}

fn parse_body(t: &Vec<Token>, p: usize) -> (r: Result<(Vec<Node>, usize), usize>)
    requires
        p <= t@.len(),
    ensures
        match r {
            Ok((body, q)) => body_end(t@, p as int) == Ok::<int, int>(q as int) && p < q
                <= t@.len() && body_nodes(t@, p as int, body@),
            Err(e) => body_end(t@, p as int) == Err::<int, int>(e as int) && e <= t@.len(),
        },
    decreases t@.len() - p, 5int,
{
    let mut body: Vec<Node> = Vec::new();
    let mut k: usize = p;
    loop
        invariant
            p <= k <= t@.len(),
            body_end(t@, p as int) == body_end(t@, k as int),
            forall|rest: Seq<Node>|
                body_nodes(t@, k as int, rest) ==> #[trigger] body_nodes(
                    t@,
                    p as int,
                    body@ + rest,
                ),
        decreases t@.len() - k,
    {
        if k >= t.len() {
            return Err(k);
        }
        if matches!(t[k].kind, TokenKind::End) {
            proof {
                assert(body_nodes(t@, k as int, Seq::<Node>::empty()));
                assert(body@ + Seq::<Node>::empty() =~= body@);
            }
            return Ok((body, k + 1));
        }
        match parse_statement(t, k) {
            Ok((n, q)) => {
                let ghost done = body@;
                proof {
                    assert forall|rest: Seq<Node>| body_nodes(t@, q as int, rest) implies
                        #[trigger] body_nodes(t@, p as int, done.push(n) + rest) by {
                        let longer = seq![n] + rest;
                        assert(longer.drop_first() =~= rest);
                        assert(body_nodes(t@, k as int, longer));
                        assert(done + longer =~= done.push(n) + rest);
                    }
                }
                body.push(n);
                k = q;
            },
            Err(e) => {
                return Err(e);
            },
        }
    }
}

fn parse_program(t: &Vec<Token>) -> (r: Result<Vec<Node>, usize>)
    ensures
        match r {
            Ok(nodes) => program_end(t@, 0) == Ok::<int, int>(t@.len() as int) && program_nodes(
                t@,
                0,
                nodes@,
            ),
            Err(e) => program_end(t@, 0) == Err::<int, int>(e as int) && e <= t@.len(),
        },
{
    let mut nodes: Vec<Node> = Vec::new();
    let mut p: usize = 0;
    while p < t.len()
        invariant
            p <= t@.len(),
            program_end(t@, 0) == program_end(t@, p as int),
            forall|rest: Seq<Node>|
                program_nodes(t@, p as int, rest) ==> #[trigger] program_nodes(
                    t@,
                    0,
                    nodes@ + rest,
                ),
        decreases t@.len() - p,
    {
        match parse_statement(t, p) {
            Ok((n, q)) => {
                let ghost done = nodes@;
                proof {
                    assert forall|rest: Seq<Node>| program_nodes(t@, q as int, rest) implies
                        #[trigger] program_nodes(t@, 0, done.push(n) + rest) by {
                        let longer = seq![n] + rest;
                        assert(longer.drop_first() =~= rest);
                        assert(program_nodes(t@, p as int, longer));
                        assert(done + longer =~= done.push(n) + rest);
                    }
                }
                nodes.push(n);
                p = q;
            },
            Err(e) => {
                return Err(e);
            },
        }
    }
    proof {
        assert(program_nodes(t@, p as int, Seq::<Node>::empty()));
        assert(nodes@ + Seq::<Node>::empty() =~= nodes@);
    }
    Ok(nodes)
}

/// The error for the token at `pos`, or for running out of tokens where
/// `pos` is past the last one.
pub open spec fn error_at(t: Seq<Token>, pos: int) -> ParseError {
    if pos < t.len() {
        ParseError::UnexpectedToken(t[pos].span)
    } else {
        ParseError::UnexpectedEnd(t[t.len() - 1].span)
    }
}

/// A parsed program: its top-level statements in order.
#[derive(Debug)]
pub struct VM {
    pub program: Vec<Node>,
}

impl VM {
    /// Parses `tokens` in one pass into the statements of a program.
    ///
    /// Fails at the first token that the grammar does not allow where it
    /// stands, or where the tokens run out inside a construct (an unclosed
    /// block, a missing `;` or `)`); no partial tree is returned.
    pub fn build(tokens: Vec<Token>) -> (r: Result<VM, ParseError>)
        ensures
            match r {
                Ok(vm) => program_end(tokens@, 0) == Ok::<int, int>(tokens@.len() as int)
                    && program_nodes(tokens@, 0, vm.program@),
                Err(e) => match program_end(tokens@, 0) {
                    Err(pos) => tokens@.len() > 0 && e == error_at(tokens@, pos),
                    Ok(_) => false,
                },
            },
    {
        match parse_program(&tokens) {
            Ok(program) => Ok(VM { program }),
            Err(pos) => {
                if pos < tokens.len() {
                    Err(ParseError::UnexpectedToken(tokens[pos].span))
                } else {
                    Err(ParseError::UnexpectedEnd(tokens[tokens.len() - 1].span))
                }
            },
        }
    }
}

proof fn lemma_body_needs_end(t: Seq<Token>, p: int)
    requires
        forall|i: int| 0 <= i < t.len() ==> !(#[trigger] t[i].kind is End),
    ensures
        body_end(t, p) is Err,
    decreases t.len() - p,
{
    if 0 <= p < t.len() {
        match statement_end(t, p) {
            Ok(q) => {
                if p < q <= t.len() {
                    lemma_body_needs_end(t, q);
                }
            },
            Err(_) => {},
        }
    }
}

/// A `proc` declaration whose block is never closed by `end` is a parse
/// error: no program, and so no truncated declaration, comes out of it.
pub proof fn lemma_unterminated_proc(t: Seq<Token>)
    requires
        t.len() > 0,
        t[0].kind is Proc,
        forall|i: int| 0 <= i < t.len() ==> !(#[trigger] t[i].kind is End),
    ensures
        statement_end(t, 0) is Err,
        program_end(t, 0) is Err,
{
    match params_end(t, 3) {
        Ok(q) => {
            lemma_body_needs_end(t, q + 1);
        },
        Err(_) => {},
    }
}

} // verus!
