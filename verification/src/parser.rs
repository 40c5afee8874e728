//! The executable parser of the expression language, proved to follow
//! the grammar stated in `expression`.

use vstd::prelude::*;
use crate::expression::{
    all_digits, depth, dice_failure, dice_literal, equality_op, expected, fail, first_index, is_ascii_digit,
    is_ascii_space, join, kind_view, nesting_failure, node_view, offset_at, ordering_op, p_comparison,
    p_conditional, p_conjunction, p_conjunction_rest, p_disjunction, p_disjunction_rest, p_equality,
    p_expression, p_primary, p_product, p_product_rest, p_sum, p_sum_rest, p_unary, product_op, unary_op, room,
    sum_op, tok_at, toks_view, utf8_total, BinaryOp, ExprKind, ExprNode, ExpressionError, Failure,
    Node, Parsed, Token, TokenKind, UnaryOp, MAX_AST_DEPTH, MAX_SOURCE_BYTES, char_utf8_len,
    digits_i64,
};
use crate::text::{chars_of, push_str};

verus! {

broadcast use vstd::string::group_string_axioms;

fn ast_depth(n: &ExprNode) -> (d: usize)
    requires
        depth(node_view(*n)) <= MAX_AST_DEPTH,
    ensures
        d == depth(node_view(*n)),
    decreases n,
{
    match &n.kind {
        ExprKind::Unary { operand, .. } => 1 + ast_depth(operand),
        ExprKind::Binary { left, right, .. } => {
            let a = ast_depth(left);
            let b = ast_depth(right);
            1 + if a >= b {
                a
            } else {
                b
            }
        },
        ExprKind::Conditional { cond, then_branch, else_branch } => {
            let a = ast_depth(cond);
            let b = ast_depth(then_branch);
            let c = ast_depth(else_branch);
            let bc = if b >= c {
                b
            } else {
                c
            };
            1 + if a >= bc {
                a
            } else {
                bc
            }
        },
        _ => 1,
    }
}

/// The parse of `ts` from `p0` went as `spec` says: on success it ended
/// at `p1` (after at least one token) with a tree of bounded depth.
pub open spec fn parsed_as(
    spec: Parsed,
    r: Result<ExprNode, ExpressionError>,
    p0: int,
    p1: int,
    len: int,
) -> bool {
    match r {
        Ok(x) => spec.0 == Ok::<Node, Failure>(node_view(x)) && spec.1 == p1 && p0 < p1 <= len
            && depth(node_view(x)) <= MAX_AST_DEPTH,
        Err(e) => spec.0 == Err::<Node, Failure>(e@),
    }
}

pub(crate) fn error_at(offset: usize, reason: &str) -> (e: ExpressionError)
    ensures
        e@ == fail(offset as int, reason@),
{
    ExpressionError { offset, reason: reason.to_owned() }
}

fn token_offset(ts: &Vec<Token>, src_len: usize, p: usize) -> (o: usize)
    ensures
        o == offset_at(toks_view(ts@), src_len as int, p as int),
{
    if p < ts.len() {
        ts[p].start
    } else {
        src_len
    }
}

fn expected_error(ts: &Vec<Token>, src_len: usize, p: usize, what: &str) -> (e: ExpressionError)
    ensures
        e@ == expected(toks_view(ts@), src_len as int, p as int, what@),
{
    let mut reason = String::new();
    push_str(&mut reason, "expected ");
    push_str(&mut reason, what);
    ExpressionError { offset: token_offset(ts, src_len, p), reason }
}

fn nesting_error(ts: &Vec<Token>, src_len: usize, p: usize) -> (e: ExpressionError)
    ensures
        nesting_failure(toks_view(ts@), src_len as int, p as int).0 == Err::<Node, Failure>(e@),
{
    error_at(token_offset(ts, src_len, p), "expression nesting exceeds depth limit")
}

fn join_nodes(op: BinaryOp, left: ExprNode, right: ExprNode) -> (r: Result<ExprNode, ExpressionError>)
    requires
        depth(node_view(left)) <= MAX_AST_DEPTH,
        depth(node_view(right)) <= MAX_AST_DEPTH,
    ensures
        match r {
            Ok(x) => join(op, node_view(left), node_view(right)) == Ok::<Node, Failure>(node_view(x))
                && depth(node_view(x)) <= MAX_AST_DEPTH,
            Err(e) => join(op, node_view(left), node_view(right)) == Err::<Node, Failure>(e@),
        },
{
    let a = ast_depth(&left);
    let b = ast_depth(&right);
    let d = 1 + if a >= b {
        a
    } else {
        b
    };
    if d > MAX_AST_DEPTH {
        return Err(error_at(left.start, "expression tree exceeds depth limit"));
    }
    let start = left.start;
    let end = right.end;
    let x = ExprNode {
        kind: ExprKind::Binary { op, left: Box::new(left), right: Box::new(right) },
        start,
        end,
    };
    Ok(x)
}

fn kind_at(ts: &Vec<Token>, p: usize) -> (k: Option<&TokenKind>)
    ensures
        ts@.len() <= usize::MAX,
        tok_at(toks_view(ts@), p as int) == match k {
            Some(t) => Some(kind_view(*t)),
            None => None::<crate::expression::Tok>,
        },
        match k {
            Some(t) => p < ts@.len() && *t == ts@[p as int].kind,
            None => p >= ts@.len(),
        },
{
    if p < ts.len() {
        Some(&ts[p].kind)
    } else {
        None
    }
}

pub(crate) fn parse_expression(ts: &Vec<Token>, src_len: usize, pos: &mut usize, n: usize) -> (r: Result<
    ExprNode,
    ExpressionError,
>)
    requires
        *old(pos) <= ts@.len(),
        1 <= n <= MAX_AST_DEPTH,
    ensures
        parsed_as(
            p_expression(toks_view(ts@), src_len as int, *old(pos) as int, n as int),
            r,
            *old(pos) as int,
            *final(pos) as int,
            ts@.len() as int,
        ),
    decreases room(n as int), ts@.len() - *old(pos), 16nat,
{
    proof {
        reveal_with_fuel(p_conditional, 1);
    }
    parse_conditional(ts, src_len, pos, n)
}

#[verifier::rlimit(40)]
fn parse_conditional(ts: &Vec<Token>, src_len: usize, pos: &mut usize, n: usize) -> (r: Result<
    ExprNode,
    ExpressionError,
>)
    requires
        *old(pos) <= ts@.len(),
        1 <= n <= MAX_AST_DEPTH,
    ensures
        parsed_as(
            p_conditional(toks_view(ts@), src_len as int, *old(pos) as int, n as int),
            r,
            *old(pos) as int,
            *final(pos) as int,
            ts@.len() as int,
        ),
    decreases room(n as int), ts@.len() - *old(pos), 15nat,
{
    proof {
        reveal_with_fuel(p_conditional, 1);
        reveal_with_fuel(p_disjunction, 1);
    }
    match kind_at(ts, *pos) {
        Some(TokenKind::If) => {},
        _ => {
            return parse_disjunction(ts, src_len, pos, n);
        },
    }
    let if_start = ts[*pos].start;
    *pos = *pos + 1;
    if n + 1 > MAX_AST_DEPTH {
        return Err(nesting_error(ts, src_len, *pos));
    }
    let cond = match parse_expression(ts, src_len, pos, n + 1) {
        Ok(x) => x,
        Err(e) => {
            return Err(e);
        },
    };
    match kind_at(ts, *pos) {
        Some(TokenKind::Then) => {},
        _ => {
            return Err(expected_error(ts, src_len, *pos, "`then`"));
        },
    }
    *pos = *pos + 1;
    let then_branch = match parse_expression(ts, src_len, pos, n + 1) {
        Ok(x) => x,
        Err(e) => {
            return Err(e);
        },
    };
    match kind_at(ts, *pos) {
        Some(TokenKind::Else) => {},
        _ => {
            return Err(expected_error(ts, src_len, *pos, "`else`"));
        },
    }
    *pos = *pos + 1;
    let else_branch = match parse_expression(ts, src_len, pos, n + 1) {
        Ok(x) => x,
        Err(e) => {
            return Err(e);
        },
    };
    let a = ast_depth(&cond);
    let b = ast_depth(&then_branch);
    let c = ast_depth(&else_branch);
    let bc = if b >= c {
        b
    } else {
        c
    };
    let d = 1 + if a >= bc {
        a
    } else {
        bc
    };
    if d > MAX_AST_DEPTH {
        return Err(error_at(if_start, "expression tree exceeds depth limit"));
    }
    let end = else_branch.end;
    Ok(
        ExprNode {
            kind: ExprKind::Conditional {
                cond: Box::new(cond),
                then_branch: Box::new(then_branch),
                else_branch: Box::new(else_branch),
            },
            start: if_start,
            end,
        },
    )
}

#[verifier::loop_isolation(false)]
#[verifier::rlimit(40)]
fn parse_disjunction(ts: &Vec<Token>, src_len: usize, pos: &mut usize, n: usize) -> (r: Result<
    ExprNode,
    ExpressionError,
>)
    requires
        *old(pos) <= ts@.len(),
        1 <= n <= MAX_AST_DEPTH,
    ensures
        parsed_as(
            p_disjunction(toks_view(ts@), src_len as int, *old(pos) as int, n as int),
            r,
            *old(pos) as int,
            *final(pos) as int,
            ts@.len() as int,
        ),
    decreases room(n as int), ts@.len() - *old(pos), 14nat,
{
    proof {
        reveal_with_fuel(p_disjunction, 1);
        reveal_with_fuel(p_conjunction, 1);
        reveal_with_fuel(p_disjunction_rest, 1);
    }
    let ghost tv = toks_view(ts@);
    let ghost p0 = *pos as int;
    let mut left = match parse_conjunction(ts, src_len, pos, n) {
        Ok(x) => x,
        Err(e) => {
            return Err(e);
        },
    };
    loop
        invariant
            p0 < *pos <= ts@.len(),
            depth(node_view(left)) <= MAX_AST_DEPTH,
            p_disjunction(tv, src_len as int, p0, n as int) == p_disjunction_rest(
                tv,
                src_len as int,
                *pos as int,
                n as int,
                node_view(left),
            ),
        decreases ts@.len() - *pos,
    {
        match kind_at(ts, *pos) {
            Some(TokenKind::PipePipe) => {},
            _ => {
                return Ok(left);
            },
        }
        *pos = *pos + 1;
        let right = match parse_conjunction(ts, src_len, pos, n) {
            Ok(x) => x,
            Err(e) => {
                return Err(e);
            },
        };
        left = match join_nodes(BinaryOp::Or, left, right) {
            Ok(x) => x,
            Err(e) => {
                return Err(e);
            },
        };
    }
}

#[verifier::loop_isolation(false)]
#[verifier::rlimit(40)]
fn parse_conjunction(ts: &Vec<Token>, src_len: usize, pos: &mut usize, n: usize) -> (r: Result<
    ExprNode,
    ExpressionError,
>)
    requires
        *old(pos) <= ts@.len(),
        1 <= n <= MAX_AST_DEPTH,
    ensures
        parsed_as(
            p_conjunction(toks_view(ts@), src_len as int, *old(pos) as int, n as int),
            r,
            *old(pos) as int,
            *final(pos) as int,
            ts@.len() as int,
        ),
    decreases room(n as int), ts@.len() - *old(pos), 12nat,
{
    proof {
        reveal_with_fuel(p_conjunction, 1);
        reveal_with_fuel(p_equality, 1);
        reveal_with_fuel(p_conjunction_rest, 1);
    }
    let ghost tv = toks_view(ts@);
    let ghost p0 = *pos as int;
    let mut left = match parse_equality(ts, src_len, pos, n) {
        Ok(x) => x,
        Err(e) => {
            return Err(e);
        },
    };
    loop
        invariant
            p0 < *pos <= ts@.len(),
            depth(node_view(left)) <= MAX_AST_DEPTH,
            p_conjunction(tv, src_len as int, p0, n as int) == p_conjunction_rest(
                tv,
                src_len as int,
                *pos as int,
                n as int,
                node_view(left),
            ),
        decreases ts@.len() - *pos,
    {
        match kind_at(ts, *pos) {
            Some(TokenKind::AmpAmp) => {},
            _ => {
                return Ok(left);
            },
        }
        *pos = *pos + 1;
        let right = match parse_equality(ts, src_len, pos, n) {
            Ok(x) => x,
            Err(e) => {
                return Err(e);
            },
        };
        left = match join_nodes(BinaryOp::And, left, right) {
            Ok(x) => x,
            Err(e) => {
                return Err(e);
            },
        };
    }
}

fn equality_token(k: Option<&TokenKind>) -> (r: Option<BinaryOp>)
    ensures
        r == equality_op(
            match k {
                Some(t) => Some(kind_view(*t)),
                None => None,
            },
        ),
{
    match k {
        Some(TokenKind::Equal) => Some(BinaryOp::Equal),
        Some(TokenKind::NotEqual) => Some(BinaryOp::NotEqual),
        _ => None,
    }
}

fn ordering_token(k: Option<&TokenKind>) -> (r: Option<BinaryOp>)
    ensures
        r == ordering_op(
            match k {
                Some(t) => Some(kind_view(*t)),
                None => None,
            },
        ),
{
    match k {
        Some(TokenKind::Less) => Some(BinaryOp::Less),
        Some(TokenKind::LessEqual) => Some(BinaryOp::LessEqual),
        Some(TokenKind::Greater) => Some(BinaryOp::Greater),
        Some(TokenKind::GreaterEqual) => Some(BinaryOp::GreaterEqual),
        _ => None,
    }
}

fn sum_token(k: Option<&TokenKind>) -> (r: Option<BinaryOp>)
    ensures
        r == sum_op(
            match k {
                Some(t) => Some(kind_view(*t)),
                None => None,
            },
        ),
{
    match k {
        Some(TokenKind::Plus) => Some(BinaryOp::Add),
        Some(TokenKind::Minus) => Some(BinaryOp::Sub),
        _ => None,
    }
}

fn product_token(k: Option<&TokenKind>) -> (r: Option<BinaryOp>)
    ensures
        r == product_op(
            match k {
                Some(t) => Some(kind_view(*t)),
                None => None,
            },
        ),
{
    match k {
        Some(TokenKind::Star) => Some(BinaryOp::Mul),
        Some(TokenKind::Slash) => Some(BinaryOp::Div),
        Some(TokenKind::Percent) => Some(BinaryOp::Rem),
        _ => None,
    }
}

fn parse_equality(ts: &Vec<Token>, src_len: usize, pos: &mut usize, n: usize) -> (r: Result<
    ExprNode,
    ExpressionError,
>)
    requires
        *old(pos) <= ts@.len(),
        1 <= n <= MAX_AST_DEPTH,
    ensures
        parsed_as(
            p_equality(toks_view(ts@), src_len as int, *old(pos) as int, n as int),
            r,
            *old(pos) as int,
            *final(pos) as int,
            ts@.len() as int,
        ),
    decreases room(n as int), ts@.len() - *old(pos), 10nat,
{
    proof {
        reveal_with_fuel(p_equality, 1);
        reveal_with_fuel(p_comparison, 1);
    }
    let left = match parse_comparison(ts, src_len, pos, n) {
        Ok(x) => x,
        Err(e) => {
            return Err(e);
        },
    };
    let op = match equality_token(kind_at(ts, *pos)) {
        Some(op) => op,
        None => {
            return Ok(left);
        },
    };
    *pos = *pos + 1;
    let right = match parse_comparison(ts, src_len, pos, n) {
        Ok(x) => x,
        Err(e) => {
            return Err(e);
        },
    };
    let k = kind_at(ts, *pos);
    if equality_token(k).is_some() {
        return Err(error_at(ts[*pos].start, "repeated equality comparison"));
    }
    join_nodes(op, left, right)
}

fn parse_comparison(ts: &Vec<Token>, src_len: usize, pos: &mut usize, n: usize) -> (r: Result<
    ExprNode,
    ExpressionError,
>)
    requires
        *old(pos) <= ts@.len(),
        1 <= n <= MAX_AST_DEPTH,
    ensures
        parsed_as(
            p_comparison(toks_view(ts@), src_len as int, *old(pos) as int, n as int),
            r,
            *old(pos) as int,
            *final(pos) as int,
            ts@.len() as int,
        ),
    decreases room(n as int), ts@.len() - *old(pos), 9nat,
{
    proof {
        reveal_with_fuel(p_comparison, 1);
        reveal_with_fuel(p_sum, 1);
    }
    let left = match parse_sum(ts, src_len, pos, n) {
        Ok(x) => x,
        Err(e) => {
            return Err(e);
        },
    };
    let op = match ordering_token(kind_at(ts, *pos)) {
        Some(op) => op,
        None => {
            return Ok(left);
        },
    };
    *pos = *pos + 1;
    let right = match parse_sum(ts, src_len, pos, n) {
        Ok(x) => x,
        Err(e) => {
            return Err(e);
        },
    };
    let k = kind_at(ts, *pos);
    if ordering_token(k).is_some() {
        return Err(error_at(ts[*pos].start, "repeated ordering comparison"));
    }
    join_nodes(op, left, right)
}

#[verifier::loop_isolation(false)]
#[verifier::rlimit(40)]
fn parse_sum(ts: &Vec<Token>, src_len: usize, pos: &mut usize, n: usize) -> (r: Result<
    ExprNode,
    ExpressionError,
>)
    requires
        *old(pos) <= ts@.len(),
        1 <= n <= MAX_AST_DEPTH,
    ensures
        parsed_as(
            p_sum(toks_view(ts@), src_len as int, *old(pos) as int, n as int),
            r,
            *old(pos) as int,
            *final(pos) as int,
            ts@.len() as int,
        ),
    decreases room(n as int), ts@.len() - *old(pos), 8nat,
{
    proof {
        reveal_with_fuel(p_sum, 1);
        reveal_with_fuel(p_product, 1);
        reveal_with_fuel(p_sum_rest, 1);
    }
    let ghost tv = toks_view(ts@);
    let ghost p0 = *pos as int;
    let mut left = match parse_product(ts, src_len, pos, n) {
        Ok(x) => x,
        Err(e) => {
            return Err(e);
        },
    };
    loop
        invariant
            p0 < *pos <= ts@.len(),
            depth(node_view(left)) <= MAX_AST_DEPTH,
            p_sum(tv, src_len as int, p0, n as int) == p_sum_rest(
                tv,
                src_len as int,
                *pos as int,
                n as int,
                node_view(left),
            ),
        decreases ts@.len() - *pos,
    {
        let op = match sum_token(kind_at(ts, *pos)) {
            Some(op) => op,
            None => {
                return Ok(left);
            },
        };
        *pos = *pos + 1;
        let right = match parse_product(ts, src_len, pos, n) {
            Ok(x) => x,
            Err(e) => {
                return Err(e);
            },
        };
        left = match join_nodes(op, left, right) {
            Ok(x) => x,
            Err(e) => {
                return Err(e);
            },
        };
    }
}

#[verifier::loop_isolation(false)]
#[verifier::rlimit(40)]
fn parse_product(ts: &Vec<Token>, src_len: usize, pos: &mut usize, n: usize) -> (r: Result<
    ExprNode,
    ExpressionError,
>)
    requires
        *old(pos) <= ts@.len(),
        1 <= n <= MAX_AST_DEPTH,
    ensures
        parsed_as(
            p_product(toks_view(ts@), src_len as int, *old(pos) as int, n as int),
            r,
            *old(pos) as int,
            *final(pos) as int,
            ts@.len() as int,
        ),
    decreases room(n as int), ts@.len() - *old(pos), 6nat,
{
    proof {
        reveal_with_fuel(p_product, 1);
        reveal_with_fuel(p_unary, 1);
        reveal_with_fuel(p_product_rest, 1);
    }
    let ghost tv = toks_view(ts@);
    let ghost p0 = *pos as int;
    let mut left = match parse_unary(ts, src_len, pos, n) {
        Ok(x) => x,
        Err(e) => {
            return Err(e);
        },
    };
    loop
        invariant
            p0 < *pos <= ts@.len(),
            depth(node_view(left)) <= MAX_AST_DEPTH,
            p_product(tv, src_len as int, p0, n as int) == p_product_rest(
                tv,
                src_len as int,
                *pos as int,
                n as int,
                node_view(left),
            ),
        decreases ts@.len() - *pos,
    {
        let op = match product_token(kind_at(ts, *pos)) {
            Some(op) => op,
            None => {
                return Ok(left);
            },
        };
        *pos = *pos + 1;
        let right = match parse_unary(ts, src_len, pos, n) {
            Ok(x) => x,
            Err(e) => {
                return Err(e);
            },
        };
        left = match join_nodes(op, left, right) {
            Ok(x) => x,
            Err(e) => {
                return Err(e);
            },
        };
    }
}

fn unary_token(k: Option<&TokenKind>) -> (r: Option<UnaryOp>)
    ensures
        r == unary_op(
            match k {
                Some(t) => Some(kind_view(*t)),
                None => None,
            },
        ),
{
    match k {
        Some(TokenKind::Minus) => Some(UnaryOp::Neg),
        Some(TokenKind::Bang) => Some(UnaryOp::Not),
        _ => None,
    }
}

fn parse_unary(ts: &Vec<Token>, src_len: usize, pos: &mut usize, n: usize) -> (r: Result<
    ExprNode,
    ExpressionError,
>)
    requires
        *old(pos) <= ts@.len(),
        1 <= n <= MAX_AST_DEPTH,
    ensures
        parsed_as(
            p_unary(toks_view(ts@), src_len as int, *old(pos) as int, n as int),
            r,
            *old(pos) as int,
            *final(pos) as int,
            ts@.len() as int,
        ),
    decreases room(n as int), ts@.len() - *old(pos), 4nat,
{
    proof {
        reveal_with_fuel(p_unary, 1);
        reveal_with_fuel(p_primary, 1);
    }
    let op = match unary_token(kind_at(ts, *pos)) {
        Some(op) => op,
        None => {
            return parse_primary(ts, src_len, pos, n);
        },
    };
    let start = ts[*pos].start;
    *pos = *pos + 1;
    if n + 1 > MAX_AST_DEPTH {
        return Err(nesting_error(ts, src_len, *pos));
    }
    let operand = match parse_unary(ts, src_len, pos, n + 1) {
        Ok(x) => x,
        Err(e) => {
            return Err(e);
        },
    };
    if 1 + ast_depth(&operand) > MAX_AST_DEPTH {
        return Err(error_at(start, "expression tree exceeds depth limit"));
    }
    let end = operand.end;
    Ok(ExprNode { kind: ExprKind::Unary { op, operand: Box::new(operand) }, start, end })
}

/// Parse `roll("...")` whose `roll` is token `p`.
fn parse_roll(ts: &Vec<Token>, src_len: usize, p: usize, n: usize) -> (r: Result<ExprNode, ExpressionError>)
    requires
        p < ts@.len() <= usize::MAX,
        ts@[p as int].kind == TokenKind::Roll,
    ensures
        parsed_as(
            p_primary(toks_view(ts@), src_len as int, p as int, n as int),
            r,
            p as int,
            p + 4,
            ts@.len() as int,
        ),
{
    proof {
        reveal_with_fuel(p_primary, 1);
    }
    let start = ts[p].start;
    match kind_at(ts, p + 1) {
        Some(TokenKind::LeftParen) => {},
        _ => {
            return Err(expected_error(ts, src_len, p + 1, "`(` after `roll`"));
        },
    }
    let lit = match kind_at(ts, p + 2) {
        Some(TokenKind::Text(lit)) => lit,
        _ => {
            return Err(
                error_at(token_offset(ts, src_len, p + 2), "`roll()` requires a string literal"),
            );
        },
    };
    match kind_at(ts, p + 3) {
        Some(TokenKind::RightParen) => {},
        _ => {
            return Err(expected_error(ts, src_len, p + 3, "`)`"));
        },
    }
    let (count, sides) = match check_dice_literal(lit, ts[p + 2].start) {
        Ok(cs) => cs,
        Err(e) => {
            return Err(e);
        },
    };
    Ok(
        ExprNode {
            kind: ExprKind::Dice { literal: lit.clone(), count, sides },
            start,
            end: ts[p + 3].end,
        },
    )
}

#[verifier::rlimit(40)]
fn parse_primary(ts: &Vec<Token>, src_len: usize, pos: &mut usize, n: usize) -> (r: Result<
    ExprNode,
    ExpressionError,
>)
    requires
        *old(pos) <= ts@.len(),
        1 <= n <= MAX_AST_DEPTH,
    ensures
        parsed_as(
            p_primary(toks_view(ts@), src_len as int, *old(pos) as int, n as int),
            r,
            *old(pos) as int,
            *final(pos) as int,
            ts@.len() as int,
        ),
    decreases room(n as int), ts@.len() - *old(pos), 3nat,
{
    proof {
        reveal_with_fuel(p_primary, 1);
    }
    let p = *pos;
    if p >= ts.len() {
        return Err(error_at(src_len, "expected an expression"));
    }
    let start = ts[p].start;
    let end = ts[p].end;
    *pos = p + 1;
    match &ts[p].kind {
        TokenKind::Integer(v) => Ok(ExprNode { kind: ExprKind::Integer(*v), start, end }),
        TokenKind::Text(v) => Ok(ExprNode { kind: ExprKind::Text(v.clone()), start, end }),
        TokenKind::True => Ok(ExprNode { kind: ExprKind::Boolean(true), start, end }),
        TokenKind::False => Ok(ExprNode { kind: ExprKind::Boolean(false), start, end }),
        TokenKind::Identifier(v) => Ok(ExprNode { kind: ExprKind::Variable(v.clone()), start, end }),
        TokenKind::LeftParen => {
            if n + 1 > MAX_AST_DEPTH {
                return Err(nesting_error(ts, src_len, *pos));
            }
            let inner = match parse_expression(ts, src_len, pos, n + 1) {
                Ok(x) => x,
                Err(e) => {
                    return Err(e);
                },
            };
            match kind_at(ts, *pos) {
                Some(TokenKind::RightParen) => {},
                _ => {
                    return Err(expected_error(ts, src_len, *pos, "`)`"));
                },
            }
            *pos = *pos + 1;
            Ok(inner)
        },
        TokenKind::Roll => {
            let r = parse_roll(ts, src_len, p, n);
            if r.is_ok() {
                *pos = p + 4;
            }
            r
        },
        _ => Err(error_at(start, "expected an expression")),
    }
}

proof fn lemma_first_index_prefix(s: Seq<char>, c: char, k: int)
    requires
        0 <= k <= s.len(),
        first_index(s.take(k), c) is Some,
    ensures
        first_index(s, c) == first_index(s.take(k), c),
    decreases s.len() - k,
{
    if k < s.len() {
        assert(s.take(k + 1).drop_last() =~= s.take(k));
        lemma_first_index_prefix(s, c, k + 1);
    } else {
        assert(s.take(k) =~= s);
    }
}

fn dice_error(lit: &String, offset: usize, why: &str) -> (e: ExpressionError)
    ensures
        e@ == dice_failure(lit@, offset as int, why@),
{
    let mut reason = String::new();
    push_str(&mut reason, "invalid dice literal `");
    push_str(&mut reason, lit.as_str());
    push_str(&mut reason, "`: ");
    push_str(&mut reason, why);
    ExpressionError { offset, reason }
}

fn chars_contain_char(cs: &Vec<char>, lo: usize, c: char) -> (r: bool)
    requires
        lo <= cs@.len(),
    ensures
        r == cs@.skip(lo as int).contains(c),
{
    let mut i = lo;
    while i < cs.len()
        invariant
            lo <= i <= cs@.len(),
            forall|k: int| lo <= k < i ==> cs@[k] != c,
        decreases cs@.len() - i,
    {
        if cs[i] == c {
            assert(cs@.skip(lo as int)[i - lo] == c);
            return true;
        }
        i = i + 1;
    }
    proof {
        if cs@.skip(lo as int).contains(c) {
            let k = choose|k: int| 0 <= k < cs@.skip(lo as int).len() && cs@.skip(lo as int)[k] == c;
            assert(cs@[lo + k] == c);
        }
    }
    false
}

fn all_digits_in(cs: &Vec<char>, lo: usize, hi: usize) -> (r: bool)
    requires
        lo <= hi <= cs@.len(),
    ensures
        r == all_digits(cs@.subrange(lo as int, hi as int)),
{
    let mut i = lo;
    while i < hi
        invariant
            lo <= i <= hi <= cs@.len(),
            forall|k: int| lo <= k < i ==> is_ascii_digit(#[trigger] cs@[k]),
        decreases hi - i,
    {
        if !('0' <= cs[i] && cs[i] <= '9') {
            assert(!is_ascii_digit(cs@.subrange(lo as int, hi as int)[i - lo]));
            return false;
        }
        i = i + 1;
    }
    proof {
        assert forall|k: int| 0 <= k < hi - lo implies is_ascii_digit(#[trigger] cs@.subrange(lo as int, hi as int)[k]) by {
            assert(cs@.subrange(lo as int, hi as int)[k] == cs@[lo + k]);
        }
    }
    true
}

#[verifier::rlimit(40)]
fn check_dice_literal(lit: &String, offset: usize) -> (r: Result<(u32, u32), ExpressionError>)
    ensures
        match r {
            Ok(cs) => dice_literal(lit@, offset as int) == Ok::<(u32, u32), Failure>(cs),
            Err(e) => dice_literal(lit@, offset as int) == Err::<(u32, u32), Failure>(e@),
        },
{
    proof {
        reveal(dice_literal);
    }
    let cs = chars_of(lit.as_str());
    let mut i: usize = 0;
    while i < cs.len()
        invariant
            cs@ == lit@,
            i <= cs@.len(),
            forall|k: int| 0 <= k < i ==> !is_ascii_space(#[trigger] cs@[k]),
        decreases cs@.len() - i,
    {
        let c = cs[i];
        if c == ' ' || c == '\t' || c == '\n' || c == '\x0C' || c == '\r' {
            proof {
                reveal(dice_literal);
            }
            assert(is_ascii_space(lit@[i as int]));
            return Err(dice_error(lit, offset, "no internal whitespace allowed"));
        }
        i = i + 1;
    }
    let mut d: usize = 0;
    while d < cs.len() && cs[d] != 'd'
        invariant
            cs@ == lit@,
            d <= cs@.len(),
            first_index(cs@.take(d as int), 'd') is None,
        decreases cs@.len() - d,
    {
        assert(cs@.take(d + 1).drop_last() =~= cs@.take(d as int));
        d = d + 1;
    }
    if d == cs.len() {
        assert(cs@.take(d as int) =~= cs@);
        return Err(dice_error(lit, offset, "expected `[N]dS` form"));
    }
    proof {
        assert(cs@.take(d + 1).drop_last() =~= cs@.take(d as int));
        lemma_first_index_prefix(cs@, 'd', d + 1);
    }
    let n = cs.len();
    if chars_contain_char(&cs, d + 1, 'd') || chars_contain_char(&cs, 0, 'D') {
        assert(cs@.skip(0) =~= cs@);
        return Err(dice_error(lit, offset, "expected `[N]dS` form"));
    }
    assert(cs@.skip(0) =~= cs@);
    assert(cs@.subrange(d + 1, n as int) =~= cs@.skip(d + 1));
    assert(cs@.subrange(0, d as int) =~= cs@.take(d as int));
    if !all_digits_in(&cs, d + 1, n) || d + 1 == n {
        return Err(dice_error(lit, offset, "sides must be ASCII decimal digits"));
    }
    if !all_digits_in(&cs, 0, d) {
        return Err(dice_error(lit, offset, "count must be ASCII decimal digits"));
    }
    assert forall|x: int| d + 1 <= x < n implies is_ascii_digit(#[trigger] cs@[x]) by {
        assert(cs@[x] == cs@.subrange(d + 1, n as int)[x - d - 1]);
    }
    assert forall|x: int| 0 <= x < d implies is_ascii_digit(#[trigger] cs@[x]) by {
        assert(cs@[x] == cs@.subrange(0, d as int)[x]);
    }
    let count: u32 = if d == 0 {
        1
    } else {
        match digits_i64(&cs, 0, d) {
            Some(v) => {
                if v > u32::MAX as i64 {
                    return Err(dice_error(lit, offset, "count must be ASCII decimal digits"));
                }
                v as u32
            },
            None => {
                return Err(dice_error(lit, offset, "count must be ASCII decimal digits"));
            },
        }
    };
    let sides: u32 = match digits_i64(&cs, d + 1, n) {
        Some(v) => {
            if v > u32::MAX as i64 {
                return Err(dice_error(lit, offset, "sides must be ASCII decimal digits"));
            }
            v as u32
        },
        None => {
            return Err(dice_error(lit, offset, "sides must be ASCII decimal digits"));
        },
    };
    if !(1 <= count && count <= 1000) {
        return Err(dice_error(lit, offset, "count must be 1-1000"));
    }
    if !(1 <= sides && sides <= 1_000_000) {
        return Err(dice_error(lit, offset, "sides must be 1-1000000"));
    }
    Ok((count, sides))
}

pub(crate) proof fn lemma_utf8_total_at_least_len(s: Seq<char>)
    ensures
        utf8_total(s) >= s.len(),
    decreases s.len(),
{
    if s.len() > 0 {
        lemma_utf8_total_at_least_len(s.drop_last());
    }
}

pub(crate) fn source_bytes(cs: &Vec<char>) -> (r: Option<usize>)
    ensures
        match r {
            Some(b) => b == utf8_total(cs@) && b <= MAX_SOURCE_BYTES,
            None => utf8_total(cs@) > MAX_SOURCE_BYTES,
        },
{
    let mut total: usize = 0;
    let mut i: usize = 0;
    assert(cs@.take(0) =~= Seq::<char>::empty());
    while i < cs.len()
        invariant
            i <= cs@.len(),
            total == utf8_total(cs@.take(i as int)),
            total <= MAX_SOURCE_BYTES,
        decreases cs@.len() - i,
    {
        assert(cs@.take(i + 1).drop_last() =~= cs@.take(i as int));
        total = total + char_utf8_len(cs[i]);
        i = i + 1;
        if total > MAX_SOURCE_BYTES {
            proof {
                lemma_utf8_prefix(cs@, i as int);
            }
            return None;
        }
    }
    assert(cs@.take(i as int) =~= cs@);
    Some(total)
}

proof fn lemma_utf8_prefix(s: Seq<char>, k: int)
    requires
        0 <= k <= s.len(),
    ensures
        utf8_total(s) >= utf8_total(s.take(k)),
    decreases s.len() - k,
{
    if k < s.len() {
        lemma_utf8_prefix(s, k + 1);
        assert(s.take(k + 1).drop_last() =~= s.take(k));
    } else {
        assert(s.take(k) =~= s);
    }
}


} // verus!
