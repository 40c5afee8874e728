//! Evaluating result-value expressions. Evaluation is lazy where the
//! language says so: only the taken branch of a conditional is evaluated,
//! and `&&` and `||` evaluate their right side only when it decides the
//! result. Arithmetic is checked.
//!
//! Dice are rolled outside the library. Evaluation is given the outcomes
//! of the dice rolled so far, in the order the rolls happen; when it
//! reaches a roll with no outcome yet it stops and names the literal to
//! roll, and is run again with that outcome added.

use vstd::prelude::*;
use crate::expression::{fail, node_view, Ast, BinaryOp, ExprKind, ExprNode, Expression, ExpressionError, Failure, Node, UnaryOp};
use crate::checker::{lookup, type_of, ValueType};
use crate::roller::DiceOutcome;
use crate::text::{push_str, str_equal};

verus! {

broadcast use vstd::string::group_string_axioms;

/// A value of an expression.
#[derive(Debug, Clone, PartialEq)]
pub enum Value {
    Integer(i64),
    Boolean(bool),
    Text(String),
}

/// A value as values.
pub enum ValueV {
    Integer(i64),
    Boolean(bool),
    Text(Seq<char>),
}

pub open spec fn value_view(v: Value) -> ValueV {
    match v {
        Value::Integer(i) => ValueV::Integer(i),
        Value::Boolean(b) => ValueV::Boolean(b),
        Value::Text(s) => ValueV::Text(s@),
    }
}

/// The value bound to `name` in `scope`: its latest binding, if any.
pub open spec fn value_of(scope: Seq<(Seq<char>, ValueV)>, name: Seq<char>) -> Option<ValueV>
    decreases scope.len(),
{
    if scope.len() == 0 {
        None
    } else if scope.last().0 == name {
        Some(scope.last().1)
    } else {
        value_of(scope.drop_last(), name)
    }
}

/// Names and their values; a later binding of a name replaces an earlier
/// one.
pub struct ValueScope {
    entries: Vec<(String, Value)>,
}

impl View for ValueScope {
    type V = Seq<(Seq<char>, ValueV)>;

    closed spec fn view(&self) -> Seq<(Seq<char>, ValueV)> {
        self.entries@.map_values(|e: (String, Value)| (e.0@, value_view(e.1)))
    }
}

impl ValueScope {
    /// An empty scope.
    pub fn new() -> (s: ValueScope)
        ensures
            s@ == Seq::<(Seq<char>, ValueV)>::empty(),
    {
        let s = ValueScope { entries: Vec::new() };
        assert(s@ =~= Seq::<(Seq<char>, ValueV)>::empty());
        s
    }

    /// Bind `name` to `v`.
    pub fn insert(&mut self, name: String, v: Value)
        ensures
            final(self)@ == old(self)@.push((name@, value_view(v))),
    {
        self.entries.push((name, v));
        assert(self@ =~= old(self)@.push((name@, value_view(v))));
    }

    /// The value bound to `name`, if any.
    pub fn get(&self, name: &str) -> (r: Option<Value>)
        ensures
            match r {
                Some(v) => value_of(self@, name@) == Some(value_view(v)),
                None => value_of(self@, name@) is None,
            },
    {
        let mut i = self.entries.len();
        assert(self@.take(i as int) =~= self@);
        while i > 0
            invariant
                i <= self.entries@.len(),
                value_of(self@, name@) == value_of(self@.take(i as int), name@),
            decreases i,
        {
            let ghost pre = self@.take(i as int);
            assert(pre.drop_last() =~= self@.take(i - 1));
            assert(pre.last() == (self.entries@[i - 1].0@, value_view(self.entries@[i - 1].1)));
            if str_equal(self.entries[i - 1].0.as_str(), name) {
                let v = match &self.entries[i - 1].1 {
                    Value::Integer(n) => Value::Integer(*n),
                    Value::Boolean(b) => Value::Boolean(*b),
                    Value::Text(s) => Value::Text(s.clone()),
                };
                return Some(v);
            }
            i = i - 1;
        }
        None
    }
}

/// The outcome of one dice roll, as values.
pub enum Rolled {
    Value(i64),
    NonNumeric,
    Failed(Seq<char>),
}

pub open spec fn rolled_view(d: DiceOutcome) -> Rolled {
    match d {
        DiceOutcome::Value(v) => Rolled::Value(v),
        DiceOutcome::NonNumeric => Rolled::NonNumeric,
        DiceOutcome::Failed(s) => Rolled::Failed(s@),
    }
}

pub open spec fn rolls_view(v: Seq<DiceOutcome>) -> Seq<Rolled> {
    v.map_values(|d: DiceOutcome| rolled_view(d))
}

/// Where evaluating stands: a value, a failure, or a roll of the named
/// literal whose outcome is not known yet.
pub enum Outcome {
    Value(ValueV),
    Failed(Failure),
    NeedRoll(Seq<char>),
}

/// Negation, unless it overflows.
pub open spec fn neg_checked(a: i64) -> Option<i64> {
    if a == i64::MIN {
        None
    } else {
        Some((-a) as i64)
    }
}

/// A unary operator applied to a value.
pub open spec fn unary_value(op: UnaryOp, v: ValueV, at: int) -> Outcome {
    match (op, v) {
        (UnaryOp::Neg, ValueV::Integer(a)) => match neg_checked(a) {
            Some(r) => Outcome::Value(ValueV::Integer(r)),
            None => Outcome::Failed(fail(at, "integer negation overflows"@)),
        },
        (UnaryOp::Not, ValueV::Boolean(a)) => Outcome::Value(ValueV::Boolean(!a)),
        (UnaryOp::Neg, _) => Outcome::Failed(fail(at, "unary `-` requires an integer"@)),
        (UnaryOp::Not, _) => Outcome::Failed(fail(at, "unary `!` requires a boolean"@)),
    }
}

pub open spec fn int_result(r: Option<i64>, at: int, why: Seq<char>) -> Outcome {
    match r {
        Some(v) => Outcome::Value(ValueV::Integer(v)),
        None => Outcome::Failed(fail(at, why)),
    }
}

pub open spec fn bool_value(b: bool) -> Outcome {
    Outcome::Value(ValueV::Boolean(b))
}

/// A binary operator other than `&&` and `||` applied to two values.
pub open spec fn eager_value(at: int, op: BinaryOp, l: ValueV, r: ValueV) -> Outcome {
    match (l, r) {
        (ValueV::Integer(a), ValueV::Integer(b)) => match op {
            BinaryOp::Add => int_result(a.checked_add(b), at, "integer addition overflows"@),
            BinaryOp::Mul => int_result(a.checked_mul(b), at, "integer multiplication overflows"@),
            BinaryOp::Sub => int_result(a.checked_sub(b), at, "integer subtraction overflows"@),
            BinaryOp::Div => int_result(a.checked_div(b), at, "integer division overflows or divides by zero"@),
            BinaryOp::Rem => int_result(a.checked_rem(b), at, "integer remainder overflows or divides by zero"@),
            BinaryOp::Equal => bool_value(a == b),
            BinaryOp::NotEqual => bool_value(a != b),
            BinaryOp::Less => bool_value(a < b),
            BinaryOp::LessEqual => bool_value(a <= b),
            BinaryOp::Greater => bool_value(a > b),
            BinaryOp::GreaterEqual => bool_value(a >= b),
            _ => Outcome::Failed(fail(at, "unsupported operation"@)),
        },
        (ValueV::Boolean(a), ValueV::Boolean(b)) => match op {
            BinaryOp::Equal => bool_value(a == b),
            BinaryOp::NotEqual => bool_value(a != b),
            _ => mismatch(at, op),
        },
        (ValueV::Text(a), ValueV::Text(b)) => match op {
            BinaryOp::Equal => bool_value(a == b),
            BinaryOp::NotEqual => bool_value(a != b),
            _ => mismatch(at, op),
        },
        _ => mismatch(at, op),
    }
}

/// The failure for operands of the wrong types.
pub open spec fn mismatch(at: int, op: BinaryOp) -> Outcome {
    match op {
        BinaryOp::Add | BinaryOp::Sub | BinaryOp::Mul | BinaryOp::Div | BinaryOp::Rem => Outcome::Failed(
            fail(at, "arithmetic requires integers"@),
        ),
        BinaryOp::Less | BinaryOp::LessEqual | BinaryOp::Greater | BinaryOp::GreaterEqual => Outcome::Failed(
            fail(at, "ordering requires integers"@),
        ),
        BinaryOp::Equal | BinaryOp::NotEqual => Outcome::Failed(fail(at, "equality requires matching operand types"@)),
        _ => Outcome::Failed(fail(at, "unsupported operation"@)),
    }
}

/// The value of a dice roll whose outcome is `d`, for literal `lit` at
/// `at`.
pub open spec fn roll_value(d: Rolled, lit: Seq<char>, at: int) -> Outcome {
    match d {
        Rolled::Value(v) => Outcome::Value(ValueV::Integer(v)),
        Rolled::NonNumeric => Outcome::Failed(fail(at, "dice literal `"@ + lit + "` produced a non-numeric outcome"@)),
        Rolled::Failed(why) => Outcome::Failed(fail(at, "invalid dice roll: "@ + why)),
    }
}

/// Evaluate `n` in `scope` with dice outcomes `rolls`, of which the first
/// `k` are used already: the outcome and how many are used after it.
pub open spec fn eval(n: Node, scope: Seq<(Seq<char>, ValueV)>, rolls: Seq<Rolled>, k: int) -> (Outcome, int)
    decreases n,
{
    match n.kind {
        Ast::Integer(v) => (Outcome::Value(ValueV::Integer(v)), k),
        Ast::Boolean(v) => (Outcome::Value(ValueV::Boolean(v)), k),
        Ast::Text(v) => (Outcome::Value(ValueV::Text(v)), k),
        Ast::Variable(name) => match value_of(scope, name) {
            Some(v) => (Outcome::Value(v), k),
            None => (Outcome::Failed(fail(n.start, "unknown name `"@ + name + "`"@)), k),
        },
        Ast::Dice { literal, .. } => if 0 <= k < rolls.len() {
            (roll_value(rolls[k], literal, n.start), k + 1)
        } else {
            (Outcome::NeedRoll(literal), k)
        },
        Ast::Unary { op, operand } => {
            let (o, k1) = eval(*operand, scope, rolls, k);
            match o {
                Outcome::Value(v) => (unary_value(op, v, n.start), k1),
                _ => (o, k1),
            }
        },
        Ast::Conditional { cond, then_branch, else_branch } => {
            let (c, k1) = eval(*cond, scope, rolls, k);
            match c {
                Outcome::Value(ValueV::Boolean(true)) => eval(*then_branch, scope, rolls, k1),
                Outcome::Value(ValueV::Boolean(false)) => eval(*else_branch, scope, rolls, k1),
                Outcome::Value(_) => (Outcome::Failed(fail(cond.start, "`if` condition must be boolean"@)), k1),
                _ => (c, k1),
            }
        },
        Ast::Binary { op, left, right } => {
            let (a, k1) = eval(*left, scope, rolls, k);
            match op {
                BinaryOp::And | BinaryOp::Or => match a {
                    Outcome::Value(ValueV::Boolean(x)) => if x == (op == BinaryOp::Or) {
                        (bool_value(x), k1)
                    } else {
                        let (b, k2) = eval(*right, scope, rolls, k1);
                        match b {
                            Outcome::Value(ValueV::Boolean(y)) => (bool_value(y), k2),
                            Outcome::Value(_) => (
                                Outcome::Failed(fail(right.start, "boolean operators require booleans"@)),
                                k2,
                            ),
                            _ => (b, k2),
                        }
                    },
                    Outcome::Value(_) => (Outcome::Failed(fail(left.start, "boolean operators require booleans"@)), k1),
                    _ => (a, k1),
                },
                _ => match a {
                    Outcome::Value(l) => {
                        let (b, k2) = eval(*right, scope, rolls, k1);
                        match b {
                            Outcome::Value(r) => (eager_value(n.start, op, l, r), k2),
                            _ => (b, k2),
                        }
                    },
                    _ => (a, k1),
                },
            }
        },
    }
}

/// Where evaluating stands.
#[derive(Debug, PartialEq)]
pub enum Evaluation {
    /// Finished: the value, or why there is none.
    Done(Result<Value, ExpressionError>),
    /// The dice literal to roll next; evaluate again with its outcome
    /// added.
    Roll(String),
}

enum Step {
    Value(Value),
    Failed(ExpressionError),
    NeedRoll(String),
}

spec fn step_view(s: Step) -> Outcome {
    match s {
        Step::Value(v) => Outcome::Value(value_view(v)),
        Step::Failed(e) => Outcome::Failed(e@),
        Step::NeedRoll(l) => Outcome::NeedRoll(l@),
    }
}

fn failed(offset: usize, reason: &str) -> (s: Step)
    ensures
        step_view(s) == Outcome::Failed(fail(offset as int, reason@)),
{
    Step::Failed(ExpressionError { offset, reason: reason.to_owned() })
}

fn message3(prefix: &str, middle: &str, suffix: &str) -> (s: String)
    ensures
        s@ == prefix@ + middle@ + suffix@,
{
    let mut s = String::new();
    push_str(&mut s, prefix);
    push_str(&mut s, middle);
    push_str(&mut s, suffix);
    s
}

fn int_step(r: Option<i64>, at: usize, why: &str) -> (s: Step)
    ensures
        step_view(s) == int_result(r, at as int, why@),
{
    match r {
        Some(v) => Step::Value(Value::Integer(v)),
        None => failed(at, why),
    }
}

fn mismatch_step(at: usize, op: BinaryOp) -> (s: Step)
    ensures
        step_view(s) == mismatch(at as int, op),
{
    match op {
        BinaryOp::Add | BinaryOp::Sub | BinaryOp::Mul | BinaryOp::Div | BinaryOp::Rem => failed(
            at,
            "arithmetic requires integers",
        ),
        BinaryOp::Less | BinaryOp::LessEqual | BinaryOp::Greater | BinaryOp::GreaterEqual => failed(
            at,
            "ordering requires integers",
        ),
        BinaryOp::Equal | BinaryOp::NotEqual => failed(at, "equality requires matching operand types"),
        _ => failed(at, "unsupported operation"),
    }
}

fn eager_step(at: usize, op: BinaryOp, l: Value, r: Value) -> (s: Step)
    ensures
        step_view(s) == eager_value(at as int, op, value_view(l), value_view(r)),
{
    match (l, r) {
        (Value::Integer(a), Value::Integer(b)) => match op {
            BinaryOp::Add => int_step(a.checked_add(b), at, "integer addition overflows"),
            BinaryOp::Mul => int_step(a.checked_mul(b), at, "integer multiplication overflows"),
            BinaryOp::Sub => int_step(a.checked_sub(b), at, "integer subtraction overflows"),
            BinaryOp::Div => int_step(a.checked_div(b), at, "integer division overflows or divides by zero"),
            BinaryOp::Rem => int_step(a.checked_rem(b), at, "integer remainder overflows or divides by zero"),
            BinaryOp::Equal => Step::Value(Value::Boolean(a == b)),
            BinaryOp::NotEqual => Step::Value(Value::Boolean(a != b)),
            BinaryOp::Less => Step::Value(Value::Boolean(a < b)),
            BinaryOp::LessEqual => Step::Value(Value::Boolean(a <= b)),
            BinaryOp::Greater => Step::Value(Value::Boolean(a > b)),
            BinaryOp::GreaterEqual => Step::Value(Value::Boolean(a >= b)),
            _ => failed(at, "unsupported operation"),
        },
        (Value::Boolean(a), Value::Boolean(b)) => match op {
            BinaryOp::Equal => Step::Value(Value::Boolean(a == b)),
            BinaryOp::NotEqual => Step::Value(Value::Boolean(a != b)),
            _ => mismatch_step(at, op),
        },
        (Value::Text(a), Value::Text(b)) => match op {
            BinaryOp::Equal => Step::Value(Value::Boolean(str_equal(a.as_str(), b.as_str()))),
            BinaryOp::NotEqual => Step::Value(Value::Boolean(!str_equal(a.as_str(), b.as_str()))),
            _ => mismatch_step(at, op),
        },
        _ => mismatch_step(at, op),
    }
}

fn unary_step(op: UnaryOp, v: Value, at: usize) -> (s: Step)
    ensures
        step_view(s) == unary_value(op, value_view(v), at as int),
{
    match (op, v) {
        (UnaryOp::Neg, Value::Integer(a)) => if a == i64::MIN {
            failed(at, "integer negation overflows")
        } else {
            Step::Value(Value::Integer(-a))
        },
        (UnaryOp::Not, Value::Boolean(a)) => Step::Value(Value::Boolean(!a)),
        (UnaryOp::Neg, _) => failed(at, "unary `-` requires an integer"),
        (UnaryOp::Not, _) => failed(at, "unary `!` requires a boolean"),
    }
}

fn roll_step(d: &DiceOutcome, lit: &String, at: usize) -> (s: Step)
    ensures
        step_view(s) == roll_value(rolled_view(*d), lit@, at as int),
{
    match d {
        DiceOutcome::Value(v) => Step::Value(Value::Integer(*v)),
        DiceOutcome::NonNumeric => Step::Failed(
            ExpressionError {
                offset: at,
                reason: message3("dice literal `", lit.as_str(), "` produced a non-numeric outcome"),
            },
        ),
        DiceOutcome::Failed(why) => {
            let mut reason = String::new();
            push_str(&mut reason, "invalid dice roll: ");
            push_str(&mut reason, why.as_str());
            Step::Failed(ExpressionError { offset: at, reason })
        },
    }
}

fn eval_node(node: &ExprNode, scope: &ValueScope, rolls: &Vec<DiceOutcome>, k: &mut usize) -> (s: Step)
    requires
        *old(k) <= rolls@.len(),
    ensures
        (step_view(s), *final(k) as int) == eval(node_view(*node), scope@, rolls_view(rolls@), *old(k) as int),
        *final(k) <= rolls@.len(),
    decreases node,
{
    match &node.kind {
        ExprKind::Integer(v) => Step::Value(Value::Integer(*v)),
        ExprKind::Boolean(v) => Step::Value(Value::Boolean(*v)),
        ExprKind::Text(v) => Step::Value(Value::Text(v.clone())),
        ExprKind::Variable(name) => match scope.get(name.as_str()) {
            Some(v) => Step::Value(v),
            None => Step::Failed(
                ExpressionError { offset: node.start, reason: message3("unknown name `", name.as_str(), "`") },
            ),
        },
        ExprKind::Dice { literal, .. } => {
            if *k < rolls.len() {
                let s = roll_step(&rolls[*k], literal, node.start);
                *k = *k + 1;
                s
            } else {
                Step::NeedRoll(literal.clone())
            }
        },
        ExprKind::Unary { op, operand } => match eval_node(operand, scope, rolls, k) {
            Step::Value(v) => unary_step(*op, v, node.start),
            other => other,
        },
        ExprKind::Conditional { cond, then_branch, else_branch } => match eval_node(cond, scope, rolls, k) {
            Step::Value(Value::Boolean(true)) => eval_node(then_branch, scope, rolls, k),
            Step::Value(Value::Boolean(false)) => eval_node(else_branch, scope, rolls, k),
            Step::Value(_) => failed(cond.start, "`if` condition must be boolean"),
            other => other,
        },
        ExprKind::Binary { op, left, right } => {
            let a = eval_node(left, scope, rolls, k);
            match op {
                BinaryOp::And | BinaryOp::Or => match a {
                    Step::Value(Value::Boolean(x)) => {
                        let deciding = match op {
                            BinaryOp::Or => true,
                            _ => false,
                        };
                        if x == deciding {
                            Step::Value(Value::Boolean(x))
                        } else {
                            match eval_node(right, scope, rolls, k) {
                                Step::Value(Value::Boolean(y)) => Step::Value(Value::Boolean(y)),
                                Step::Value(_) => failed(right.start, "boolean operators require booleans"),
                                other => other,
                            }
                        }
                    },
                    Step::Value(_) => failed(left.start, "boolean operators require booleans"),
                    other => other,
                },
                _ => match a {
                    Step::Value(l) => match eval_node(right, scope, rolls, k) {
                        Step::Value(r) => eager_step(node.start, *op, l, r),
                        other => other,
                    },
                    other => other,
                },
            }
        },
    }
}

/// Evaluate an expression in `scope`, with `rolls` the outcomes of the
/// dice rolled so far, in order.
pub fn evaluate(expr: &Expression, scope: &ValueScope, rolls: &Vec<DiceOutcome>) -> (r: Evaluation)
    ensures
        ({
            let (o, _) = eval(node_view(expr.root), scope@, rolls_view(rolls@), 0);
            match r {
                Evaluation::Done(Ok(v)) => o == Outcome::Value(value_view(v)),
                Evaluation::Done(Err(e)) => o == Outcome::Failed(e@),
                Evaluation::Roll(lit) => o == Outcome::NeedRoll(lit@),
            }
        }),
{
    let mut k: usize = 0;
    match eval_node(&expr.root, scope, rolls, &mut k) {
        Step::Value(v) => Evaluation::Done(Ok(v)),
        Step::Failed(e) => Evaluation::Done(Err(e)),
        Step::NeedRoll(l) => Evaluation::Roll(l),
    }
}

/// A law of replaying dice: evaluation uses the given outcomes in order
/// and never more than it has; when it finishes, more outcomes change
/// nothing, and when it stops for a roll it has used them all.
pub proof fn lemma_eval_replay(
    n: Node,
    scope: Seq<(Seq<char>, ValueV)>,
    rolls: Seq<Rolled>,
    more: Seq<Rolled>,
    k: int,
)
    requires
        0 <= k <= rolls.len(),
    ensures
        k <= eval(n, scope, rolls, k).1 <= rolls.len(),
        !(eval(n, scope, rolls, k).0 is NeedRoll) ==> eval(n, scope, rolls + more, k) == eval(n, scope, rolls, k),
        eval(n, scope, rolls, k).0 is NeedRoll ==> eval(n, scope, rolls, k).1 == rolls.len(),
    decreases n,
{
    let r2 = rolls + more;
    match n.kind {
        Ast::Dice { .. } => {
            if k < rolls.len() {
                assert(r2[k] == rolls[k]);
            }
        },
        Ast::Unary { op, operand } => {
            lemma_eval_replay(*operand, scope, rolls, more, k);
        },
        Ast::Conditional { cond, then_branch, else_branch } => {
            lemma_eval_replay(*cond, scope, rolls, more, k);
            let (c, k1) = eval(*cond, scope, rolls, k);
            lemma_eval_replay(*then_branch, scope, rolls, more, k1);
            lemma_eval_replay(*else_branch, scope, rolls, more, k1);
        },
        Ast::Binary { op, left, right } => {
            lemma_eval_replay(*left, scope, rolls, more, k);
            let (a, k1) = eval(*left, scope, rolls, k);
            lemma_eval_replay(*right, scope, rolls, more, k1);
        },
        _ => {},
    }
}

/// A law of the operators on integers: when the left operand of a binary
/// operator evaluates to the integer `a`, and then the right operand to
/// the integer `b`, each comparison gives the truth of that comparison of
/// `a` and `b` in the order of the integers, `+`, `-` and `*` give the
/// sum, difference and product where it lies within `i64` and fail where
/// it does not, and (but for `&&` and `||`) the dice used are those the
/// two operands used.
pub proof fn lemma_integer_operands(
    op: BinaryOp,
    left: Node,
    right: Node,
    start: int,
    end: int,
    scope: Seq<(Seq<char>, ValueV)>,
    rolls: Seq<Rolled>,
    k: int,
    a: i64,
    b: i64,
)
    requires
        eval(left, scope, rolls, k).0 == Outcome::Value(ValueV::Integer(a)),
        eval(right, scope, rolls, eval(left, scope, rolls, k).1).0 == Outcome::Value(ValueV::Integer(b)),
    ensures
        ({
            let n = Node { kind: Ast::Binary { op, left: Box::new(left), right: Box::new(right) }, start, end };
            let (o, used) = eval(n, scope, rolls, k);
            &&& op != BinaryOp::And && op != BinaryOp::Or ==> used == eval(right, scope, rolls, eval(left, scope, rolls, k).1).1
            &&& op == BinaryOp::Equal ==> o == Outcome::Value(ValueV::Boolean(a == b))
            &&& op == BinaryOp::NotEqual ==> o == Outcome::Value(ValueV::Boolean(a != b))
            &&& op == BinaryOp::Less ==> o == Outcome::Value(ValueV::Boolean(a < b))
            &&& op == BinaryOp::LessEqual ==> o == Outcome::Value(ValueV::Boolean(a <= b))
            &&& op == BinaryOp::Greater ==> o == Outcome::Value(ValueV::Boolean(a > b))
            &&& op == BinaryOp::GreaterEqual ==> o == Outcome::Value(ValueV::Boolean(a >= b))
            &&& op == BinaryOp::Add ==> if i64::MIN <= a + b <= i64::MAX {
                o == Outcome::Value(ValueV::Integer((a + b) as i64))
            } else {
                o is Failed
            }
            &&& op == BinaryOp::Sub ==> if i64::MIN <= a - b <= i64::MAX {
                o == Outcome::Value(ValueV::Integer((a - b) as i64))
            } else {
                o is Failed
            }
            &&& op == BinaryOp::Mul ==> if i64::MIN <= a * b <= i64::MAX {
                o == Outcome::Value(ValueV::Integer((a * b) as i64))
            } else {
                o is Failed
            }
        }),
{
}

/// The size of an integer, without its sign.
pub open spec fn magnitude(a: int) -> nat {
    if a < 0 {
        (-a) as nat
    } else {
        a as nat
    }
}

/// A law of integer division: when the left operand of `/` or `%`
/// evaluates to `a` and then the right operand to `b`, division by zero
/// fails, and so does dividing `i64::MIN` by `-1`; otherwise `/` rounds
/// toward zero, giving the quotient of the magnitudes with the sign of
/// `a * b`, and `%` gives the remainder of the magnitudes with the sign of
/// `a`.
pub proof fn lemma_integer_division(
    op: BinaryOp,
    left: Node,
    right: Node,
    start: int,
    end: int,
    scope: Seq<(Seq<char>, ValueV)>,
    rolls: Seq<Rolled>,
    k: int,
    a: i64,
    b: i64,
)
    requires
        op == BinaryOp::Div || op == BinaryOp::Rem,
        eval(left, scope, rolls, k).0 == Outcome::Value(ValueV::Integer(a)),
        eval(right, scope, rolls, eval(left, scope, rolls, k).1).0 == Outcome::Value(ValueV::Integer(b)),
    ensures
        ({
            let n = Node { kind: Ast::Binary { op, left: Box::new(left), right: Box::new(right) }, start, end };
            let o = eval(n, scope, rolls, k).0;
            let q = magnitude(a as int) / magnitude(b as int);
            let r = magnitude(a as int) % magnitude(b as int);
            if b == 0 || (a == i64::MIN && b == -1) {
                o is Failed
            } else if op == BinaryOp::Div {
                o == Outcome::Value(ValueV::Integer((if (a < 0) == (b < 0) { q as int } else { -q }) as i64))
            } else {
                o == Outcome::Value(ValueV::Integer((if a < 0 { -r } else { r as int }) as i64))
            }
        }),
{
    let n = Node { kind: Ast::Binary { op, left: Box::new(left), right: Box::new(right) }, start, end };
    assert(eval(n, scope, rolls, k).0 == eager_value(start, op, ValueV::Integer(a), ValueV::Integer(b)));
    let x = a as int;
    let d = b as int;
    assert(x * -1 == -x);
    assert(d * -1 == -d);
    if a == i64::MIN && b == -1 {
        assert(x * -1 == 9223372036854775808int && d * -1 == 1);
        assert(9223372036854775808int / 1int == 9223372036854775808int) by (nonlinear_arith);
    }
    if b != 0 && !(a == i64::MIN && b == -1) {
        let q = magnitude(x) / magnitude(d);
        let r = magnitude(x) % magnitude(d);
        assert(0 <= q <= magnitude(x)) by (nonlinear_arith)
            requires
                magnitude(d) >= 1,
                q == magnitude(x) / magnitude(d),
        ;
        assert(0 <= r < magnitude(d));
        if x == i64::MIN && magnitude(d) >= 2 {
            assert(q <= magnitude(x) / 2) by (nonlinear_arith)
                requires
                    magnitude(d) >= 2,
                    q == magnitude(x) / magnitude(d),
            ;
        }
        if x == 0 {
            assert(q == 0 && r == 0) by (nonlinear_arith)
                requires
                    magnitude(d) >= 1,
                    q == 0nat / magnitude(d),
                    r == 0nat % magnitude(d),
            ;
        }
        if x > 0 && d > 0 {
            assert(x / d == q && x % d == r);
        } else if x < 0 && d < 0 {
            assert((-x) / (-d) == q && (-x) % (-d) == r);
        } else if x < 0 {
            assert((-x) / d == q && (-x) % d == r);
        } else if x > 0 {
            assert(x / (-d) == q && x % (-d) == r);
        }
    }
}

/// A law of `&&` and `||`: when the left operand evaluates to a boolean
/// that decides the result (`false` for `&&`, `true` for `||`), that is
/// the result and the right operand is not evaluated, so it rolls no
/// dice; when the right operand evaluates to the boolean `y`, the result
/// is the conjunction, or disjunction, of `x` and `y`.
pub proof fn lemma_logical_operands(
    op: BinaryOp,
    left: Node,
    right: Node,
    start: int,
    end: int,
    scope: Seq<(Seq<char>, ValueV)>,
    rolls: Seq<Rolled>,
    k: int,
    x: bool,
    y: bool,
)
    requires
        op == BinaryOp::And || op == BinaryOp::Or,
        eval(left, scope, rolls, k).0 == Outcome::Value(ValueV::Boolean(x)),
    ensures
        ({
            let n = Node { kind: Ast::Binary { op, left: Box::new(left), right: Box::new(right) }, start, end };
            let k1 = eval(left, scope, rolls, k).1;
            let (o, used) = eval(n, scope, rolls, k);
            &&& op == BinaryOp::And && !x ==> o == Outcome::Value(ValueV::Boolean(false)) && used == k1
            &&& op == BinaryOp::Or && x ==> o == Outcome::Value(ValueV::Boolean(true)) && used == k1
            &&& eval(right, scope, rolls, k1).0 == Outcome::Value(ValueV::Boolean(y)) ==> o == Outcome::Value(
                ValueV::Boolean(if op == BinaryOp::And { x && y } else { x || y }),
            )
        }),
{
}

/// A law of the unary operators: `!` of a boolean is its negation, and
/// `-` of an integer is its negation, which fails only for `i64::MIN`.
pub proof fn lemma_unary_operand(
    op: UnaryOp,
    operand: Node,
    start: int,
    end: int,
    scope: Seq<(Seq<char>, ValueV)>,
    rolls: Seq<Rolled>,
    k: int,
    v: ValueV,
)
    requires
        eval(operand, scope, rolls, k).0 == Outcome::Value(v),
    ensures
        ({
            let n = Node { kind: Ast::Unary { op, operand: Box::new(operand) }, start, end };
            let o = eval(n, scope, rolls, k).0;
            &&& op == UnaryOp::Not && v is Boolean ==> o == Outcome::Value(ValueV::Boolean(!v->Boolean_0))
            &&& op == UnaryOp::Neg && v is Integer ==> if v->Integer_0 == i64::MIN {
                o is Failed
            } else {
                o == Outcome::Value(ValueV::Integer((-v->Integer_0) as i64))
            }
        }),
{
}

/// A law of conditionals: a condition that evaluates to `true` selects
/// the first branch and one that evaluates to `false` the second; the
/// other branch is not evaluated, so it rolls no dice.
pub proof fn lemma_conditional_branch(
    cond: Node,
    then_branch: Node,
    else_branch: Node,
    start: int,
    end: int,
    scope: Seq<(Seq<char>, ValueV)>,
    rolls: Seq<Rolled>,
    k: int,
    c: bool,
)
    requires
        eval(cond, scope, rolls, k).0 == Outcome::Value(ValueV::Boolean(c)),
    ensures
        ({
            let n = Node {
                kind: Ast::Conditional {
                    cond: Box::new(cond),
                    then_branch: Box::new(then_branch),
                    else_branch: Box::new(else_branch),
                },
                start,
                end,
            };
            let k1 = eval(cond, scope, rolls, k).1;
            eval(n, scope, rolls, k) == if c {
                eval(then_branch, scope, rolls, k1)
            } else {
                eval(else_branch, scope, rolls, k1)
            }
        }),
{
}

/// A law of dice in expressions: a dice roll takes the next outcome not
/// used yet, and only that one; a numeric outcome is its value; when no
/// outcome is left, evaluation asks for a roll of that very literal and
/// uses none.
pub proof fn lemma_dice_take_next_outcome(
    literal: Seq<char>,
    count: u32,
    sides: u32,
    start: int,
    end: int,
    scope: Seq<(Seq<char>, ValueV)>,
    rolls: Seq<Rolled>,
    k: int,
)
    requires
        0 <= k,
    ensures
        ({
            let n = Node { kind: Ast::Dice { literal, count, sides }, start, end };
            let (o, used) = eval(n, scope, rolls, k);
            &&& k < rolls.len() ==> used == k + 1
            &&& k < rolls.len() && rolls[k] is Value ==> o == Outcome::Value(ValueV::Integer(rolls[k]->Value_0))
            &&& k < rolls.len() && !(rolls[k] is Value) ==> o is Failed
            &&& k >= rolls.len() ==> o == Outcome::NeedRoll(literal) && used == k
        }),
{
}

/// A law of scopes: a name's value is that of its latest binding, and
/// binding a name leaves the values of other names as they were.
pub proof fn lemma_latest_binding(scope: Seq<(Seq<char>, ValueV)>, name: Seq<char>, v: ValueV, other: Seq<char>)
    requires
        other != name,
    ensures
        value_of(scope.push((name, v)), name) == Some(v),
        value_of(scope.push((name, v)), other) == value_of(scope, other),
{
    assert(scope.push((name, v)).drop_last() =~= scope);
}

/// A law of equality on booleans and on text: when both operands of `==`
/// or `!=` evaluate to booleans, or both to text, the result is whether
/// they are the same value, or whether they differ.
pub proof fn lemma_equality_operands(
    op: BinaryOp,
    left: Node,
    right: Node,
    start: int,
    end: int,
    scope: Seq<(Seq<char>, ValueV)>,
    rolls: Seq<Rolled>,
    k: int,
    l: ValueV,
    r: ValueV,
)
    requires
        op == BinaryOp::Equal || op == BinaryOp::NotEqual,
        (l is Boolean && r is Boolean) || (l is Text && r is Text),
        eval(left, scope, rolls, k).0 == Outcome::Value(l),
        eval(right, scope, rolls, eval(left, scope, rolls, k).1).0 == Outcome::Value(r),
    ensures
        ({
            let n = Node { kind: Ast::Binary { op, left: Box::new(left), right: Box::new(right) }, start, end };
            eval(n, scope, rolls, k).0 == Outcome::Value(ValueV::Boolean((l == r) == (op == BinaryOp::Equal)))
        }),
{
}

/// A value of type `t`.
pub open spec fn has_type(v: ValueV, t: ValueType) -> bool {
    match v {
        ValueV::Integer(_) => t == ValueType::Integer,
        ValueV::Boolean(_) => t == ValueType::Boolean,
        ValueV::Text(_) => t == ValueType::Text,
    }
}

/// Every name the types give a type to has a value of that type.
pub open spec fn conforms(values: Seq<(Seq<char>, ValueV)>, types: Seq<(Seq<char>, ValueType)>) -> bool {
    forall|name: Seq<char>|
        #[trigger] lookup(types, name) matches Some(t) ==> value_of(values, name) matches Some(v) && has_type(v, t)
}

/// A failure that type checking cannot rule out: overflow, division by
/// zero, or a dice roll that went wrong.
pub open spec fn runtime_failure(e: Failure) -> bool {
    ||| e.reason == "integer negation overflows"@
    ||| e.reason == "integer addition overflows"@
    ||| e.reason == "integer multiplication overflows"@
    ||| e.reason == "integer subtraction overflows"@
    ||| e.reason == "integer division overflows or divides by zero"@
    ||| e.reason == "integer remainder overflows or divides by zero"@
    ||| exists|why: Seq<char>| e.reason == "invalid dice roll: "@ + why
    ||| exists|lit: Seq<char>| e.reason == "dice literal `"@ + lit + "` produced a non-numeric outcome"@
}

pub open spec fn sound_outcome(o: Outcome, t: ValueType, allow_roll: bool) -> bool {
    match o {
        Outcome::Value(v) => has_type(v, t),
        Outcome::Failed(e) => runtime_failure(e),
        Outcome::NeedRoll(_) => allow_roll,
    }
}

/// A law tying checking to evaluation: an expression that checks with
/// type `t`, evaluated where every name has a value of its checked type,
/// gives a value of type `t`, or fails only by overflow, division by zero
/// or a failed roll, and asks for a roll only where rolls are allowed.
pub proof fn lemma_checked_evaluation(
    n: Node,
    types: Seq<(Seq<char>, ValueType)>,
    allow_roll: bool,
    values: Seq<(Seq<char>, ValueV)>,
    rolls: Seq<Rolled>,
    k: int,
)
    requires
        type_of(n, types, allow_roll) is Ok,
        conforms(values, types),
    ensures
        sound_outcome(eval(n, values, rolls, k).0, type_of(n, types, allow_roll)->Ok_0, allow_roll),
    decreases n,
{
    let t = type_of(n, types, allow_roll)->Ok_0;
    match n.kind {
        Ast::Variable(name) => {
            assert(lookup(types, name) matches Some(_));
        },
        Ast::Dice { literal, .. } => {
            if 0 <= k < rolls.len() {
                match rolls[k] {
                    Rolled::Failed(why) => {
                        assert(runtime_failure(fail(n.start, "invalid dice roll: "@ + why)));
                    },
                    Rolled::NonNumeric => {
                        assert(runtime_failure(fail(n.start, "dice literal `"@ + literal + "` produced a non-numeric outcome"@)));
                    },
                    _ => {},
                }
            }
        },
        Ast::Unary { op, operand } => {
            lemma_checked_evaluation(*operand, types, allow_roll, values, rolls, k);
        },
        Ast::Conditional { cond, then_branch, else_branch } => {
            lemma_checked_evaluation(*cond, types, allow_roll, values, rolls, k);
            let (c, k1) = eval(*cond, values, rolls, k);
            lemma_checked_evaluation(*then_branch, types, allow_roll, values, rolls, k1);
            lemma_checked_evaluation(*else_branch, types, allow_roll, values, rolls, k1);
        },
        Ast::Binary { op, left, right } => {
            lemma_checked_evaluation(*left, types, allow_roll, values, rolls, k);
            let (a, k1) = eval(*left, values, rolls, k);
            lemma_checked_evaluation(*right, types, allow_roll, values, rolls, k1);
        },
        _ => {},
    }
}

} // verus!
