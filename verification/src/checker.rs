//! Static typing of result-value expressions: every name must be in
//! scope, every operator must get operands of the types it takes, both
//! branches of a conditional must agree, and dice rolls are refused where
//! they are not allowed. All branches are checked, taken or not.

use vstd::prelude::*;
use crate::expression::{fail, node_view, Ast, ExprKind, ExprNode, Expression, ExpressionError, Failure, Node};
use crate::expression::{BinaryOp, UnaryOp};
use crate::text::{push_str, str_equal};

verus! {

broadcast use vstd::string::group_string_axioms;

/// The type of an expression value.
#[derive(Debug, Clone, Copy, PartialEq, Eq, Structural)]
pub enum ValueType {
    Integer,
    Boolean,
    Text,
}

/// How a type is named in messages.
pub open spec fn kind_label(t: ValueType) -> Seq<char> {
    match t {
        ValueType::Integer => "Integer"@,
        ValueType::Boolean => "Boolean"@,
        ValueType::Text => "Text"@,
    }
}

fn kind_label_str(t: ValueType) -> (s: &'static str)
    ensures
        s@ == kind_label(t),
{
    match t {
        ValueType::Integer => "Integer",
        ValueType::Boolean => "Boolean",
        ValueType::Text => "Text",
    }
}

/// The type bound to `name` in `scope`: its latest binding, if any.
pub open spec fn lookup(scope: Seq<(Seq<char>, ValueType)>, name: Seq<char>) -> Option<ValueType>
    decreases scope.len(),
{
    if scope.len() == 0 {
        None
    } else if scope.last().0 == name {
        Some(scope.last().1)
    } else {
        lookup(scope.drop_last(), name)
    }
}

/// Names and their types; a later binding of a name replaces an earlier
/// one.
pub struct TypeScope {
    entries: Vec<(String, ValueType)>,
}

impl View for TypeScope {
    type V = Seq<(Seq<char>, ValueType)>;

    closed spec fn view(&self) -> Seq<(Seq<char>, ValueType)> {
        self.entries@.map_values(|e: (String, ValueType)| (e.0@, e.1))
    }
}

impl TypeScope {
    /// An empty scope.
    pub fn new() -> (s: TypeScope)
        ensures
            s@ == Seq::<(Seq<char>, ValueType)>::empty(),
    {
        let s = TypeScope { entries: Vec::new() };
        assert(s@ =~= Seq::<(Seq<char>, ValueType)>::empty());
        s
    }

    /// Bind `name` to `t`.
    pub fn insert(&mut self, name: String, t: ValueType)
        ensures
            final(self)@ == old(self)@.push((name@, t)),
    {
        self.entries.push((name, t));
        assert(self@ =~= old(self)@.push((name@, t)));
    }

    /// The type bound to `name`, if any.
    pub fn get(&self, name: &str) -> (r: Option<ValueType>)
        ensures
            r == lookup(self@, name@),
    {
        let mut i = self.entries.len();
        assert(self@.take(i as int) =~= self@);
        while i > 0
            invariant
                i <= self.entries@.len(),
                lookup(self@, name@) == lookup(self@.take(i as int), name@),
            decreases i,
        {
            let ghost pre = self@.take(i as int);
            assert(pre.drop_last() =~= self@.take(i - 1));
            assert(pre.last() == (self.entries@[i - 1].0@, self.entries@[i - 1].1));
            if str_equal(self.entries[i - 1].0.as_str(), name) {
                return Some(self.entries[i - 1].1);
            }
            i = i - 1;
        }
        None
    }

    /// Whether `name` is bound.
    pub fn contains_key(&self, name: &str) -> (r: bool)
        ensures
            r == (lookup(self@, name@) is Some),
    {
        self.get(name).is_some()
    }
}

/// The type of expression `n` in `scope`, or why it has none. `allow_roll`
/// says whether dice rolls may appear.
pub open spec fn type_of(n: Node, scope: Seq<(Seq<char>, ValueType)>, allow_roll: bool) -> Result<
    ValueType,
    Failure,
>
    decreases n,
{
    match n.kind {
        Ast::Integer(_) => Ok(ValueType::Integer),
        Ast::Boolean(_) => Ok(ValueType::Boolean),
        Ast::Text(_) => Ok(ValueType::Text),
        Ast::Variable(name) => match lookup(scope, name) {
            Some(t) => Ok(t),
            None => Err(fail(n.start, "unknown name `"@ + name + "`"@)),
        },
        Ast::Unary { op, operand } => match type_of(*operand, scope, allow_roll) {
            Err(e) => Err(e),
            Ok(t) => unary_type(op, t, n.start),
        },
        Ast::Binary { op, left, right } => match type_of(*left, scope, allow_roll) {
            Err(e) => Err(e),
            Ok(l) => match type_of(*right, scope, allow_roll) {
                Err(e) => Err(e),
                Ok(r) => binary_type(op, l, r, n.start),
            },
        },
        Ast::Conditional { cond, then_branch, else_branch } => match type_of(*cond, scope, allow_roll) {
            Err(e) => Err(e),
            Ok(c) => if c != ValueType::Boolean {
                Err(fail(cond.start, "`if` condition must be boolean"@))
            } else {
                match type_of(*then_branch, scope, allow_roll) {
                    Err(e) => Err(e),
                    Ok(t) => match type_of(*else_branch, scope, allow_roll) {
                        Err(e) => Err(e),
                        Ok(f) => if t != f {
                            Err(
                                fail(
                                    n.start,
                                    "`if` branches must have the same type"@ + found(t, f),
                                ),
                            )
                        } else {
                            Ok(t)
                        },
                    },
                }
            },
        },
        Ast::Dice { .. } => if !allow_roll {
            Err(fail(n.start, "dice rolls are not allowed here"@))
        } else {
            Ok(ValueType::Integer)
        },
    }
}

/// The type a unary operator gives an operand of type `t`.
pub open spec fn unary_type(op: UnaryOp, t: ValueType, at: int) -> Result<ValueType, Failure> {
    match op {
        UnaryOp::Neg => if t != ValueType::Integer {
            Err(fail(at, "unary `-` requires an integer, found "@ + kind_label(t)))
        } else {
            Ok(ValueType::Integer)
        },
        UnaryOp::Not => if t != ValueType::Boolean {
            Err(fail(at, "unary `!` requires a boolean, found "@ + kind_label(t)))
        } else {
            Ok(ValueType::Boolean)
        },
    }
}

/// Operands of types `l` and `r` as named in a message.
pub open spec fn found(l: ValueType, r: ValueType) -> Seq<char> {
    ", found "@ + kind_label(l) + " and "@ + kind_label(r)
}

/// The type a binary operator gives operands of types `l` and `r`.
pub open spec fn binary_type(op: BinaryOp, l: ValueType, r: ValueType, at: int) -> Result<
    ValueType,
    Failure,
> {
    match op {
        BinaryOp::Equal | BinaryOp::NotEqual => if l != r {
            Err(fail(at, "equality requires matching operand types"@ + found(l, r)))
        } else {
            Ok(ValueType::Boolean)
        },
        BinaryOp::Less | BinaryOp::LessEqual | BinaryOp::Greater | BinaryOp::GreaterEqual => if l
            != ValueType::Integer || r != ValueType::Integer {
            Err(fail(at, "ordering requires integers"@ + found(l, r)))
        } else {
            Ok(ValueType::Boolean)
        },
        BinaryOp::Add | BinaryOp::Sub | BinaryOp::Mul | BinaryOp::Div | BinaryOp::Rem => if l
            != ValueType::Integer || r != ValueType::Integer {
            Err(fail(at, "arithmetic requires integers"@ + found(l, r)))
        } else {
            Ok(ValueType::Integer)
        },
        BinaryOp::And | BinaryOp::Or => if l != ValueType::Boolean || r != ValueType::Boolean {
            Err(fail(at, "boolean operators require booleans"@ + found(l, r)))
        } else {
            Ok(ValueType::Boolean)
        },
    }
}

/// Whether `r` is what `spec` says.
pub open spec fn typed_as(spec: Result<ValueType, Failure>, r: Result<ValueType, ExpressionError>) -> bool {
    match r {
        Ok(t) => spec == Ok::<ValueType, Failure>(t),
        Err(e) => spec == Err::<ValueType, Failure>(e@),
    }
}

fn message(prefix: &str, name: &str, suffix: &str) -> (s: String)
    ensures
        s@ == prefix@ + name@ + suffix@,
{
    let mut s = String::new();
    push_str(&mut s, prefix);
    push_str(&mut s, name);
    push_str(&mut s, suffix);
    s
}

fn message2(prefix: &str, name: &str) -> (s: String)
    ensures
        s@ == prefix@ + name@,
{
    let mut s = String::new();
    push_str(&mut s, prefix);
    push_str(&mut s, name);
    s
}

fn found_message(what: &str, l: ValueType, r: ValueType) -> (s: String)
    ensures
        s@ == what@ + found(l, r),
{
    let mut s = String::new();
    push_str(&mut s, what);
    push_str(&mut s, ", found ");
    push_str(&mut s, kind_label_str(l));
    push_str(&mut s, " and ");
    push_str(&mut s, kind_label_str(r));
    assert(s@ =~= what@ + found(l, r));
    s
}

fn unary_check(op: UnaryOp, t: ValueType, at: usize) -> (r: Result<ValueType, ExpressionError>)
    ensures
        typed_as(unary_type(op, t, at as int), r),
{
    match op {
        UnaryOp::Neg => if t != ValueType::Integer {
            Err(
                ExpressionError {
                    offset: at,
                    reason: message2("unary `-` requires an integer, found ", kind_label_str(t)),
                },
            )
        } else {
            Ok(ValueType::Integer)
        },
        UnaryOp::Not => if t != ValueType::Boolean {
            Err(
                ExpressionError {
                    offset: at,
                    reason: message2("unary `!` requires a boolean, found ", kind_label_str(t)),
                },
            )
        } else {
            Ok(ValueType::Boolean)
        },
    }
}

fn binary_check(op: BinaryOp, l: ValueType, r: ValueType, at: usize) -> (res: Result<
    ValueType,
    ExpressionError,
>)
    ensures
        typed_as(binary_type(op, l, r, at as int), res),
{
    match op {
        BinaryOp::Equal | BinaryOp::NotEqual => if l != r {
            Err(
                ExpressionError {
                    offset: at,
                    reason: found_message("equality requires matching operand types", l, r),
                },
            )
        } else {
            Ok(ValueType::Boolean)
        },
        BinaryOp::Less | BinaryOp::LessEqual | BinaryOp::Greater | BinaryOp::GreaterEqual => if l
            != ValueType::Integer || r != ValueType::Integer {
            Err(ExpressionError { offset: at, reason: found_message("ordering requires integers", l, r) })
        } else {
            Ok(ValueType::Boolean)
        },
        BinaryOp::Add | BinaryOp::Sub | BinaryOp::Mul | BinaryOp::Div | BinaryOp::Rem => if l
            != ValueType::Integer || r != ValueType::Integer {
            Err(ExpressionError { offset: at, reason: found_message("arithmetic requires integers", l, r) })
        } else {
            Ok(ValueType::Integer)
        },
        BinaryOp::And | BinaryOp::Or => if l != ValueType::Boolean || r != ValueType::Boolean {
            Err(
                ExpressionError {
                    offset: at,
                    reason: found_message("boolean operators require booleans", l, r),
                },
            )
        } else {
            Ok(ValueType::Boolean)
        },
    }
}

fn check_node(node: &ExprNode, scope: &TypeScope, allow_roll: bool) -> (r: Result<ValueType, ExpressionError>)
    ensures
        typed_as(type_of(node_view(*node), scope@, allow_roll), r),
    decreases node,
{
    match &node.kind {
        ExprKind::Integer(_) => Ok(ValueType::Integer),
        ExprKind::Boolean(_) => Ok(ValueType::Boolean),
        ExprKind::Text(_) => Ok(ValueType::Text),
        ExprKind::Variable(name) => match scope.get(name.as_str()) {
            Some(t) => Ok(t),
            None => Err(
                ExpressionError { offset: node.start, reason: message("unknown name `", name.as_str(), "`") },
            ),
        },
        ExprKind::Unary { op, operand } => match check_node(operand, scope, allow_roll) {
            Err(e) => Err(e),
            Ok(t) => unary_check(*op, t, node.start),
        },
        ExprKind::Binary { op, left, right } => match check_node(left, scope, allow_roll) {
            Err(e) => Err(e),
            Ok(l) => match check_node(right, scope, allow_roll) {
                Err(e) => Err(e),
                Ok(r) => binary_check(*op, l, r, node.start),
            },
        },
        ExprKind::Conditional { cond, then_branch, else_branch } => {
            let c = match check_node(cond, scope, allow_roll) {
                Err(e) => {
                    return Err(e);
                },
                Ok(c) => c,
            };
            if c != ValueType::Boolean {
                return Err(
                    ExpressionError {
                        offset: cond.start,
                        reason: "`if` condition must be boolean".to_owned(),
                    },
                );
            }
            let t = match check_node(then_branch, scope, allow_roll) {
                Err(e) => {
                    return Err(e);
                },
                Ok(t) => t,
            };
            let f = match check_node(else_branch, scope, allow_roll) {
                Err(e) => {
                    return Err(e);
                },
                Ok(f) => f,
            };
            if t != f {
                return Err(
                    ExpressionError {
                        offset: node.start,
                        reason: found_message("`if` branches must have the same type", t, f),
                    },
                );
            }
            Ok(t)
        },
        ExprKind::Dice { .. } => if !allow_roll {
            Err(ExpressionError { offset: node.start, reason: "dice rolls are not allowed here".to_owned() })
        } else {
            Ok(ValueType::Integer)
        },
    }
}

/// Type-check an expression in `scope`; `allow_roll` says whether dice
/// rolls may appear.
pub fn check(expr: &Expression, scope: &TypeScope, allow_roll: bool) -> (r: Result<ValueType, ExpressionError>)
    ensures
        typed_as(type_of(node_view(expr.root), scope@, allow_roll), r),
{
    check_node(&expr.root, scope, allow_roll)
}

/// A law of checking: allowing dice rolls only ever accepts more; an
/// expression that checks without rolls checks with them, to the same
/// type, and one that fails with them fails without them too.
pub proof fn lemma_allowing_rolls_accepts_more(n: Node, scope: Seq<(Seq<char>, ValueType)>)
    ensures
        type_of(n, scope, false) is Ok ==> type_of(n, scope, true) == type_of(n, scope, false),
        type_of(n, scope, true) is Err ==> type_of(n, scope, false) is Err,
    decreases n,
{
    match n.kind {
        Ast::Unary { operand, .. } => {
            lemma_allowing_rolls_accepts_more(*operand, scope);
        },
        Ast::Binary { left, right, .. } => {
            lemma_allowing_rolls_accepts_more(*left, scope);
            lemma_allowing_rolls_accepts_more(*right, scope);
        },
        Ast::Conditional { cond, then_branch, else_branch } => {
            lemma_allowing_rolls_accepts_more(*cond, scope);
            lemma_allowing_rolls_accepts_more(*then_branch, scope);
            lemma_allowing_rolls_accepts_more(*else_branch, scope);
        },
        _ => {},
    }
}

/// Whether expression `n` rolls dice anywhere, in any branch.
pub open spec fn has_dice(n: Node) -> bool
    decreases n,
{
    match n.kind {
        Ast::Dice { .. } => true,
        Ast::Unary { operand, .. } => has_dice(*operand),
        Ast::Binary { left, right, .. } => has_dice(*left) || has_dice(*right),
        Ast::Conditional { cond, then_branch, else_branch } => has_dice(*cond) || has_dice(*then_branch)
            || has_dice(*else_branch),
        _ => false,
    }
}

/// A law of checking: an expression that checks where rolls are not
/// allowed has no dice roll anywhere, not even in a branch that is never
/// taken.
pub proof fn lemma_checked_without_rolls_has_no_dice(n: Node, scope: Seq<(Seq<char>, ValueType)>)
    requires
        type_of(n, scope, false) is Ok,
    ensures
        !has_dice(n),
    decreases n,
{
    match n.kind {
        Ast::Unary { operand, .. } => {
            lemma_checked_without_rolls_has_no_dice(*operand, scope);
        },
        Ast::Binary { left, right, .. } => {
            lemma_checked_without_rolls_has_no_dice(*left, scope);
            lemma_checked_without_rolls_has_no_dice(*right, scope);
        },
        Ast::Conditional { cond, then_branch, else_branch } => {
            lemma_checked_without_rolls_has_no_dice(*cond, scope);
            lemma_checked_without_rolls_has_no_dice(*then_branch, scope);
            lemma_checked_without_rolls_has_no_dice(*else_branch, scope);
        },
        _ => {},
    }
}

} // verus!
