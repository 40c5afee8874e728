//! Dice facts the validator and template generator need: the shape of a
//! parsed dice expression, its analytic range, and the outcomes of digit
//! dice (D66, D666, ...).

use vstd::prelude::*;
use crate::error::{Error, ValidationError};

verus! {

/// How a dice pool is scored.
#[derive(Debug, Clone, Copy, PartialEq, Eq, Structural)]
pub enum ScoringMode {
    /// The faces are added up.
    Sum,
    /// The faces are read as the decimal digits of one number (D66).
    DigitConcatenate,
    /// Any other scoring (success counting and the like).
    Other,
}

/// A single dice roll `NdS` as the dice parser saw it.
#[derive(Debug, Clone, Copy, PartialEq, Eq, Structural)]
pub struct RollShape {
    pub count: u32,
    pub sides: u32,
    /// Whether keep/drop, exploding, reroll or similar modifiers apply.
    pub has_modifiers: bool,
    pub scoring: ScoringMode,
}

/// A binary operator of dice notation.
#[derive(Debug, Clone, Copy, PartialEq, Eq, Structural)]
pub enum DiceOp {
    Add,
    Sub,
    Other,
}

/// The shape of a parsed dice expression, as far as range analysis reads it.
/// For a binary operation, `left` is the roll on its left-hand side (none
/// when that side is not a single roll) and `right` the literal on its
/// right-hand side (none when that side is not a number literal).
#[derive(Debug, Clone, PartialEq)]
pub enum DiceShape {
    Roll(RollShape),
    Number(i64),
    BinOp { op: DiceOp, left: Option<RollShape>, right: Option<i64> },
    Other,
}

/// The outcome of parsing a dice expression: its shape, or the parser's message.
pub type DiceParse = Result<DiceShape, String>;

/// What the dice engine reported about one dice expression: how it
/// parsed, and the smallest and largest totals of its seeded simulation
/// (or the engine's message when either failed).
#[derive(Debug, PartialEq)]
pub struct DiceFacts {
    pub parsed: DiceParse,
    pub simulated: Result<(i64, i64), String>,
}

/// `(sides, count)` of a digit-dice roll.
pub open spec fn spec_digit_dice_params(expr: DiceShape) -> Option<(u32, u32)> {
    match expr {
        DiceShape::Roll(r) => if r.scoring == ScoringMode::DigitConcatenate {
            Some((r.sides, r.count))
        } else {
            None
        },
        _ => None,
    }
}

/// If `expr` is a digit-dice roll (D66, D666, ...), its `(sides, count)`.
pub fn digit_dice_params(expr: &DiceShape) -> (r: Option<(u32, u32)>)
    ensures
        r == spec_digit_dice_params(*expr),
{
    match expr {
        DiceShape::Roll(roll) => if roll.scoring == ScoringMode::DigitConcatenate {
            Some((roll.sides, roll.count))
        } else {
            None
        },
        _ => None,
    }
}

/// `10^n`.
pub open spec fn pow10(n: nat) -> nat
    decreases n,
{
    if n == 0 {
        1
    } else {
        10 * pow10((n - 1) as nat)
    }
}

/// The largest digit-dice outcome of `count` digits up to `sides`:
/// every digit at its maximum.
pub open spec fn digit_max(sides: nat, count: nat) -> nat
    decreases count,
{
    if count == 0 {
        0
    } else {
        sides * pow10((count - 1) as nat) + digit_max(sides, (count - 1) as nat)
    }
}

/// The outcomes of `count` digits, each `1..=sides`, added to `current`,
/// in generation order (first digit slowest).
pub open spec fn digit_outcomes(sides: nat, count: nat, current: int) -> Seq<int>
    decreases count, sides + 1,
{
    if count == 0 {
        seq![current]
    } else {
        digit_outcomes_upto(sides, count, current, sides)
    }
}

/// The part of `digit_outcomes(sides, count, current)` whose leading
/// digit is at most `d`.
pub open spec fn digit_outcomes_upto(sides: nat, count: nat, current: int, d: nat) -> Seq<int>
    decreases count, d,
{
    if count == 0 || d == 0 {
        Seq::empty()
    } else {
        digit_outcomes_upto(sides, count, current, (d - 1) as nat) + digit_outcomes(
            sides,
            (count - 1) as nat,
            current + d * pow10((count - 1) as nat),
        )
    }
}

/// Insert `x` before the first element greater than it.
pub open spec fn insert_int(s: Seq<int>, x: int) -> Seq<int>
    decreases s.len(),
{
    if s.len() == 0 {
        seq![x]
    } else if x < s[0] {
        seq![x] + s
    } else {
        seq![s[0]] + insert_int(s.drop_first(), x)
    }
}

/// Insertion sort, ascending.
pub open spec fn sort_ints(s: Seq<int>) -> Seq<int>
    decreases s.len(),
{
    if s.len() == 0 {
        s
    } else {
        insert_int(sort_ints(s.drop_last()), s.last())
    }
}

pub open spec fn as_ints(v: Seq<u32>) -> Seq<int> {
    v.map_values(|x: u32| x as int)
}

proof fn lemma_pow10_positive(n: nat)
    ensures
        pow10(n) >= 1,
    decreases n,
{
    if n > 0 {
        lemma_pow10_positive((n - 1) as nat);
    }
}

proof fn lemma_digit_max_grows(sides: nat, count: nat, d: nat)
    requires
        count > 0,
        d <= sides,
    ensures
        d * pow10((count - 1) as nat) + digit_max(sides, (count - 1) as nat) <= digit_max(sides, count),
{
    let p = pow10((count - 1) as nat);
    assert(d * p <= sides * p) by (nonlinear_arith)
        requires
            d <= sides,
    ;
}

proof fn lemma_pow10_monotonic(n: nat, m: nat)
    requires
        n <= m,
    ensures
        pow10(n) <= pow10(m),
    decreases m,
{
    if n < m {
        lemma_pow10_monotonic(n, (m - 1) as nat);
        lemma_pow10_positive((m - 1) as nat);
    }
}

proof fn lemma_pow10_nine()
    ensures
        pow10(9) == 1_000_000_000,
{
    reveal_with_fuel(pow10, 10);
}

fn place_value(n: u32) -> (r: u32)
    requires
        n <= 9,
    ensures
        r == pow10(n as nat),
{
    let mut r: u32 = 1;
    let mut i: u32 = 0;
    while i < n
        invariant
            i <= n,
            n <= 9,
            r == pow10(i as nat),
        decreases n - i,
    {
        proof {
            lemma_pow10_monotonic((i + 1) as nat, 9);
            lemma_pow10_nine();
        }
        r = r * 10;
        i = i + 1;
    }
    r
}

fn push_digit_outcomes(sides: u32, count: u32, current: u32, out: &mut Vec<u32>)
    requires
        count <= 10,
        current + digit_max(sides as nat, count as nat) <= u32::MAX,
    ensures
        as_ints(final(out)@) == as_ints(old(out)@) + digit_outcomes(sides as nat, count as nat, current as int),
    decreases count,
{
    if count == 0 {
        out.push(current);
        assert(as_ints(out@) =~= as_ints(old(out)@) + seq![current as int]);
        return;
    }
    let place = place_value(count - 1);
    let mut digit: u64 = 1;
    while digit <= sides as u64
        invariant
            1 <= digit <= sides as u64 + 1,
            0 < count <= 10,
            place == pow10((count - 1) as nat),
            current + digit_max(sides as nat, count as nat) <= u32::MAX,
            as_ints(out@) == as_ints(old(out)@) + digit_outcomes_upto(
                sides as nat,
                count as nat,
                current as int,
                (digit - 1) as nat,
            ),
        decreases sides as u64 + 1 - digit,
    {
        proof {
            lemma_digit_max_grows(sides as nat, count as nat, digit as nat);
            assert(digit * place <= u32::MAX);
        }
        let d = digit as u32;
        let next = current + d * place;
        let ghost before = as_ints(out@);
        push_digit_outcomes(sides, count - 1, next, out);
        proof {
            assert(digit_outcomes_upto(sides as nat, count as nat, current as int, digit as nat)
                == digit_outcomes_upto(sides as nat, count as nat, current as int, (digit - 1) as nat)
                + digit_outcomes(sides as nat, (count - 1) as nat, next as int));
            assert(as_ints(out@) =~= as_ints(old(out)@) + digit_outcomes_upto(
                sides as nat,
                count as nat,
                current as int,
                digit as nat,
            ));
        }
        digit = digit + 1;
    }
}

fn sort_ascending(v: Vec<u32>) -> (r: Vec<u32>)
    ensures
        as_ints(r@) == sort_ints(as_ints(v@)),
{
    let mut out: Vec<u32> = Vec::new();
    let mut i: usize = 0;
    while i < v.len()
        invariant
            i <= v@.len(),
            as_ints(out@) == sort_ints(as_ints(v@).take(i as int)),
        decreases v@.len() - i,
    {
        let x = v[i];
        let ghost s = as_ints(out@);
        let mut p: usize = 0;
        assert(s.skip(0) =~= s);
        assert(s.take(0) =~= Seq::<int>::empty());
        while p < out.len()
            invariant
                p <= out@.len(),
                s == as_ints(out@),
                insert_int(s, x as int) == s.take(p as int) + insert_int(s.skip(p as int), x as int),
            ensures
                p <= out@.len(),
                insert_int(s, x as int) == s.take(p as int) + insert_int(s.skip(p as int), x as int),
                p < out@.len() ==> (x as int) < s[p as int],
            decreases out@.len() - p,
        {
            if x < out[p] {
                break;
            }
            assert(s.skip(p as int)[0] == s[p as int]);
            assert(s.skip(p as int).drop_first() =~= s.skip(p + 1));
            assert(s.take(p + 1) =~= s.take(p as int) + seq![s[p as int]]);
            p = p + 1;
        }
        proof {
            if p < out@.len() {
                assert(s.skip(p as int)[0] == s[p as int]);
                assert(insert_int(s.skip(p as int), x as int) == seq![x as int] + s.skip(p as int));
            } else {
                assert(s.skip(p as int) =~= Seq::<int>::empty());
            }
        }
        out.insert(p, x);
        proof {
            assert(as_ints(out@) =~= s.take(p as int) + seq![x as int] + s.skip(p as int));
            let t = as_ints(v@).take(i + 1);
            assert(t.drop_last() =~= as_ints(v@).take(i as int));
            assert(t.last() == x as int);
        }
        i = i + 1;
    }
    assert(as_ints(v@).take(v@.len() as int) =~= as_ints(v@));
    out
}

/// No intermediate value of digit-dice generation exceeds `u32`.
pub open spec fn digit_dice_fits(sides: u32, count: u32) -> bool {
    count <= 10 && digit_max(sides as nat, count as nat) <= u32::MAX
}

/// All digit-dice outcomes of `count` digits, each `1..=sides`, read as
/// decimal digits, in ascending order. For D66 (sides 6, count 2):
/// 11, 12, ..., 16, 21, ..., 66.
pub fn digit_dice_values(sides: u32, count: u32) -> (r: Vec<u32>)
    requires
        digit_dice_fits(sides, count),
    ensures
        as_ints(r@) == sort_ints(digit_outcomes(sides as nat, count as nat, 0)),
{
    let mut out: Vec<u32> = Vec::new();
    push_digit_outcomes(sides, count, 0, &mut out);
    assert(as_ints(out@) =~= digit_outcomes(sides as nat, count as nat, 0));
    sort_ascending(out)
}

/// The analytic range of a dice expression of the supported forms
/// `NdS`, `NdS+Z`, `NdS-Z` and digit dice, or why it is unsupported.
pub open spec fn spec_dice_range(shape: DiceShape) -> Result<(u32, u32), Seq<char>> {
    match shape {
        DiceShape::Roll(roll) => if roll.has_modifiers {
            Err("dice modifiers"@)
        } else {
            match roll.scoring {
                ScoringMode::DigitConcatenate => {
                    let v = sort_ints(digit_outcomes(roll.sides as nat, roll.count as nat, 0));
                    Ok((v.first() as u32, v.last() as u32))
                },
                ScoringMode::Sum => Ok((roll.count, (roll.count * roll.sides) as u32)),
                ScoringMode::Other => Err("scoring mode"@),
            }
        },
        DiceShape::BinOp { op, left, right } => match left {
            None => Err("complex left-hand expression"@),
            Some(roll) => if roll.has_modifiers {
                Err("dice modifiers"@)
            } else if roll.scoring != ScoringMode::Sum {
                Err("scoring mode"@)
            } else {
                match right {
                    None => Err("non-literal right-hand expression"@),
                    Some(z) => {
                        let count = roll.count as int;
                        let top = roll.count * roll.sides;
                        match op {
                            DiceOp::Add => if count + z < 0 || top + z < 0 {
                                Err("produces negative values"@)
                            } else {
                                Ok(((count + z) as u32, (top + z) as u32))
                            },
                            DiceOp::Sub => if count - z < 0 || top - z < 0 {
                                Err("produces negative values"@)
                            } else {
                                Ok(((count - z) as u32, (top - z) as u32))
                            },
                            DiceOp::Other => Err("operator (only +/- supported)"@),
                        }
                    },
                }
            }
        },
        _ => Err("expression type"@),
    }
}

/// The inputs on which range analysis stays within machine integers
/// (and digit dice have at least one outcome).
pub open spec fn dice_range_defined(shape: DiceShape) -> bool {
    match shape {
        DiceShape::Roll(roll) => roll.has_modifiers || match roll.scoring {
            ScoringMode::DigitConcatenate => digit_dice_fits(roll.sides, roll.count) && (
            roll.count == 0 || roll.sides >= 1),
            ScoringMode::Sum => roll.count * roll.sides <= u32::MAX,
            ScoringMode::Other => true,
        },
        DiceShape::BinOp { op, left: Some(roll), right: Some(z) } => {
            let top = roll.count * roll.sides;
            top <= i64::MAX && i64::MIN <= top + z <= i64::MAX && i64::MIN <= top - z <= i64::MAX
                && i64::MIN <= roll.count + z <= i64::MAX && i64::MIN <= roll.count - z <= i64::MAX
        },
        _ => true,
    }
}

fn unsupported(expr: &str, what: &str) -> (e: Error)
    ensures
        e matches Error::Validation(ValidationError::UnsupportedDiceExpression { expr: x, reason })
            && x@ == expr@ && reason@ == what@,
{
    Error::Validation(
        ValidationError::UnsupportedDiceExpression { expr: expr.to_owned(), reason: what.to_owned() },
    )
}

/// The smallest and largest value of a dice expression of the forms
/// `NdS`, `NdS±Z` and digit dice (D66, ...), computed analytically.
/// Modifiers (keep/drop, exploding, reroll), dice-plus-dice and other
/// operators are rejected as unsupported; a parse failure is reported
/// as a dice error.
pub fn dice_range(expr: &str, parsed: &DiceParse) -> (r: Result<(u32, u32), Error>)
    requires
        *parsed matches Ok(shape) ==> dice_range_defined(shape),
    ensures
        *parsed matches Err(msg) ==> r matches Err(Error::Dice(m)) && m@ == msg@,
        *parsed matches Ok(shape) ==> match spec_dice_range(shape) {
            Ok(range) => r == Ok::<(u32, u32), Error>(range),
            Err(why) => r matches Err(
                Error::Validation(ValidationError::UnsupportedDiceExpression { expr: x, reason }),
            ) && x@ == expr@ && reason@ == why,
        },
{
    let shape = match parsed {
        Ok(s) => s,
        Err(msg) => {
            return Err(Error::Dice(msg.clone()));
        },
    };
    match shape {
        DiceShape::Roll(roll) => {
            if roll.has_modifiers {
                return Err(unsupported(expr, "dice modifiers"));
            }
            match roll.scoring {
                ScoringMode::DigitConcatenate => {
                    let values = digit_dice_values(roll.sides, roll.count);
                    proof {
                        if roll.count > 0 {
                            lemma_digit_outcomes_nonempty(roll.sides as nat, roll.count as nat, 0);
                        }
                        lemma_sort_len(digit_outcomes(roll.sides as nat, roll.count as nat, 0));
                    }
                    let lo = values[0];
                    let hi = values[values.len() - 1];
                    Ok((lo, hi))
                },
                ScoringMode::Sum => Ok((roll.count, roll.count * roll.sides)),
                ScoringMode::Other => Err(unsupported(expr, "scoring mode")),
            }
        },
        DiceShape::BinOp { op, left, right } => {
            let roll = match left {
                Some(r) => r,
                None => {
                    return Err(unsupported(expr, "complex left-hand expression"));
                },
            };
            if roll.has_modifiers {
                return Err(unsupported(expr, "dice modifiers"));
            }
            if roll.scoring != ScoringMode::Sum {
                return Err(unsupported(expr, "scoring mode"));
            }
            let z = match right {
                Some(n) => *n,
                None => {
                    return Err(unsupported(expr, "non-literal right-hand expression"));
                },
            };
            let sides = roll.sides as i64;
            let count = roll.count as i64;
            proof {
                assert(count * sides == roll.count * roll.sides);
            }
            let (min, max) = match op {
                DiceOp::Add => (count + z, count * sides + z),
                DiceOp::Sub => (count - z, count * sides - z),
                DiceOp::Other => {
                    return Err(unsupported(expr, "operator (only +/- supported)"));
                },
            };
            if min < 0 || max < 0 {
                return Err(unsupported(expr, "produces negative values"));
            }
            Ok((min as u32, max as u32))
        },
        _ => Err(unsupported(expr, "expression type")),
    }
}

/// The total of a roll of dice, given the face each die shows.
pub open spec fn roll_sum(faces: Seq<int>) -> int
    decreases faces.len(),
{
    if faces.len() == 0 {
        0
    } else {
        roll_sum(faces.drop_last()) + faces.last()
    }
}

/// Each die shows one of its faces `1..=sides`.
pub open spec fn fair_faces(faces: Seq<int>, sides: int) -> bool {
    forall|i: int| 0 <= i < faces.len() ==> 1 <= #[trigger] faces[i] <= sides
}

proof fn lemma_roll_sum_bounds(faces: Seq<int>, sides: int)
    requires
        fair_faces(faces, sides),
    ensures
        faces.len() <= roll_sum(faces) <= faces.len() * sides,
    decreases faces.len(),
{
    if faces.len() > 0 {
        let init = faces.drop_last();
        assert(fair_faces(init, sides)) by {
            assert forall|i: int| 0 <= i < init.len() implies 1 <= #[trigger] init[i] <= sides by {
                assert(init[i] == faces[i]);
            }
        }
        lemma_roll_sum_bounds(init, sides);
        assert(1 <= faces[faces.len() - 1] <= sides);
        assert(faces.last() == faces[faces.len() - 1]);
        assert(init.len() * sides + sides == faces.len() * sides) by (nonlinear_arith)
            requires
                init.len() + 1 == faces.len(),
        ;
    } else {
        assert(0 * sides == 0) by (nonlinear_arith);
    }
}

proof fn lemma_roll_sum_constant(n: nat, face: int)
    ensures
        roll_sum(Seq::new(n, |i: int| face)) == n * face,
    decreases n,
{
    if n > 0 {
        assert(Seq::new(n, |i: int| face).drop_last() =~= Seq::new((n - 1) as nat, |i: int| face));
        lemma_roll_sum_constant((n - 1) as nat, face);
        assert(Seq::new(n, |i: int| face).last() == face);
        assert((n - 1) * face + face == n * face) by (nonlinear_arith);
    } else {
        assert(0 * face == 0) by (nonlinear_arith);
    }
}

/// A law of dice ranges: the range of `NdS` (with `S` at least 1), and of
/// `NdS+Z` and `NdS-Z`, is the smallest and the largest total that the
/// dice can show: every roll of `N` dice of `S` faces totals, with `Z`
/// added or taken away, within the range, all ones give its low end and
/// all `S`s its high end (for `NdS±Z`, where the high end fits a `u32`).
pub proof fn lemma_sum_range_is_reachable(roll: RollShape, op: DiceOp, z: i64, faces: Seq<int>)
    requires
        roll.scoring == ScoringMode::Sum,
        !roll.has_modifiers,
        roll.sides >= 1,
        dice_range_defined(DiceShape::Roll(roll)),
        dice_range_defined(DiceShape::BinOp { op, left: Some(roll), right: Some(z) }),
        faces.len() == roll.count,
        fair_faces(faces, roll.sides as int),
        roll.count * roll.sides + (if op == DiceOp::Add { z as int } else { -z }) <= u32::MAX,
    ensures
        spec_dice_range(DiceShape::Roll(roll)) matches Ok((lo, hi)) && {
            &&& lo <= roll_sum(faces) <= hi
            &&& lo == roll_sum(Seq::new(roll.count as nat, |i: int| 1))
            &&& hi == roll_sum(Seq::new(roll.count as nat, |i: int| roll.sides as int))
        },
        ({
            let shift = if op == DiceOp::Add { z as int } else { -z };
            spec_dice_range(DiceShape::BinOp { op, left: Some(roll), right: Some(z) }) matches Ok((lo, hi))
                ==> {
                &&& op != DiceOp::Other
                &&& lo <= roll_sum(faces) + shift <= hi
                &&& lo == roll_sum(Seq::new(roll.count as nat, |i: int| 1)) + shift
                &&& hi == roll_sum(Seq::new(roll.count as nat, |i: int| roll.sides as int)) + shift
            }
        }),
{
    lemma_roll_sum_bounds(faces, roll.sides as int);
    lemma_roll_sum_constant(roll.count as nat, 1);
    lemma_roll_sum_constant(roll.count as nat, roll.sides as int);
    assert(roll.count * 1 == roll.count);
}

/// Digit dice with at least one side (or no digits) have an outcome.
pub proof fn lemma_digit_values_nonempty(sides: u32, count: u32)
    requires
        count == 0 || sides >= 1,
    ensures
        sort_ints(digit_outcomes(sides as nat, count as nat, 0)).len() >= 1,
{
    if count > 0 {
        lemma_digit_outcomes_nonempty(sides as nat, count as nat, 0);
    }
    lemma_sort_len(digit_outcomes(sides as nat, count as nat, 0));
}

proof fn lemma_sort_insert_len(s: Seq<int>, x: int)
    ensures
        insert_int(s, x).len() == s.len() + 1,
    decreases s.len(),
{
    if s.len() > 0 && x >= s[0] {
        lemma_sort_insert_len(s.drop_first(), x);
    }
}

proof fn lemma_sort_len(s: Seq<int>)
    ensures
        sort_ints(s).len() == s.len(),
    decreases s.len(),
{
    if s.len() > 0 {
        lemma_sort_len(s.drop_last());
        lemma_sort_insert_len(sort_ints(s.drop_last()), s.last());
    }
}

proof fn lemma_digit_outcomes_nonempty(sides: nat, count: nat, current: int)
    requires
        sides >= 1,
    ensures
        digit_outcomes(sides, count, current).len() >= 1,
    decreases count,
{
    if count > 0 {
        lemma_upto_nonempty(sides, count, current, sides);
    }
}

proof fn lemma_upto_nonempty(sides: nat, count: nat, current: int, d: nat)
    requires
        sides >= 1,
        count >= 1,
        d >= 1,
    ensures
        digit_outcomes_upto(sides, count, current, d).len() >= 1,
    decreases count, d,
{
    lemma_digit_outcomes_nonempty(sides, (count - 1) as nat, current + d * pow10((count - 1) as nat));
}

/// Every element of `s` is smaller than every later one.
pub open spec fn strictly_ascending(s: Seq<int>) -> bool {
    forall|i: int, j: int| 0 <= i < j < s.len() ==> s[i] < s[j]
}

/// With at most ten sides, the remaining digits never span a whole place:
/// all at their maximum stay below all at one plus the next place value.
proof fn lemma_digit_spread(sides: nat, k: nat)
    requires
        sides <= 10,
    ensures
        digit_max(sides, k) < digit_max(1, k) + pow10(k),
    decreases k,
{
    if k > 0 {
        let p = pow10((k - 1) as nat);
        lemma_digit_spread(sides, (k - 1) as nat);
        assert(sides * p <= 10 * p) by (nonlinear_arith)
            requires
                sides <= 10,
        ;
    }
}

proof fn lemma_digit_outcomes_ordered(sides: nat, count: nat, current: int)
    requires
        sides <= 10,
    ensures
        strictly_ascending(digit_outcomes(sides, count, current)),
        forall|i: int|
            0 <= i < digit_outcomes(sides, count, current).len() ==> current + digit_max(1, count)
                <= #[trigger] digit_outcomes(sides, count, current)[i] <= current + digit_max(
                sides,
                count,
            ),
    decreases count, sides + 1,
{
    if count > 0 {
        lemma_upto_ordered(sides, count, current, sides);
    }
}

proof fn lemma_upto_ordered(sides: nat, count: nat, current: int, d: nat)
    requires
        sides <= 10,
        count >= 1,
        d <= sides,
    ensures
        strictly_ascending(digit_outcomes_upto(sides, count, current, d)),
        forall|i: int|
            0 <= i < digit_outcomes_upto(sides, count, current, d).len() ==> current + digit_max(
                1,
                count,
            ) <= #[trigger] digit_outcomes_upto(sides, count, current, d)[i] <= current + d * pow10(
                (count - 1) as nat,
            ) + digit_max(sides, (count - 1) as nat),
    decreases count, d,
{
    if d > 0 {
        let k = (count - 1) as nat;
        let p = pow10(k);
        let a = digit_outcomes_upto(sides, count, current, (d - 1) as nat);
        let b = digit_outcomes(sides, k, current + d * p);
        lemma_upto_ordered(sides, count, current, (d - 1) as nat);
        lemma_digit_outcomes_ordered(sides, k, current + d * p);
        lemma_digit_spread(sides, k);
        assert(d * p == (d - 1) * p + p) by (nonlinear_arith);
        assert(p <= d * p) by (nonlinear_arith)
            requires
                d >= 1,
        ;
        let s = a + b;
        assert(s == digit_outcomes_upto(sides, count, current, d));
        assert forall|i: int, j: int| 0 <= i < j < s.len() implies s[i] < s[j] by {
            if j < a.len() {
            } else if i >= a.len() {
                assert(s[i] == b[i - a.len()]);
                assert(s[j] == b[j - a.len()]);
            } else {
                assert(s[i] == a[i]);
                assert(s[j] == b[j - a.len()]);
            }
        }
        assert forall|i: int| 0 <= i < s.len() implies current + digit_max(1, count) <= #[trigger] s[i]
            <= current + d * p + digit_max(sides, k) by {
            if i < a.len() {
                assert(s[i] == a[i]);
            } else {
                assert(s[i] == b[i - a.len()]);
            }
        }
    }
}

proof fn lemma_insert_last(s: Seq<int>, x: int)
    requires
        forall|i: int| 0 <= i < s.len() ==> s[i] <= x,
    ensures
        insert_int(s, x) == s.push(x),
    decreases s.len(),
{
    if s.len() > 0 {
        lemma_insert_last(s.drop_first(), x);
        assert(seq![s[0]] + s.drop_first().push(x) =~= s.push(x));
    } else {
        assert(seq![x] =~= s.push(x));
    }
}

proof fn lemma_sort_ascending(s: Seq<int>)
    requires
        strictly_ascending(s),
    ensures
        sort_ints(s) == s,
    decreases s.len(),
{
    if s.len() > 0 {
        let init = s.drop_last();
        lemma_sort_ascending(init);
        assert forall|i: int| 0 <= i < init.len() implies init[i] <= s.last() by {
            assert(s[i] < s[s.len() - 1]);
        }
        lemma_insert_last(init, s.last());
        assert(init.push(s.last()) =~= s);
    }
}

/// Digit dice of at most ten sides read as distinct, non-negative numbers,
/// generated in ascending order: sorting leaves them as they are. (With eleven sides,
/// the digits 1, 11 and 2, 1 both read 21.)
pub proof fn lemma_digit_values_ascending(sides: u32, count: u32)
    requires
        sides <= 10,
    ensures
        strictly_ascending(sort_ints(digit_outcomes(sides as nat, count as nat, 0))),
        sort_ints(digit_outcomes(sides as nat, count as nat, 0)) == digit_outcomes(
            sides as nat,
            count as nat,
            0,
        ),
        forall|i: int|
            0 <= i < digit_outcomes(sides as nat, count as nat, 0).len() ==> 0
                <= #[trigger] digit_outcomes(sides as nat, count as nat, 0)[i],
{
    lemma_digit_outcomes_ordered(sides as nat, count as nat, 0);
    lemma_sort_ascending(digit_outcomes(sides as nat, count as nat, 0));
}

proof fn lemma_digit_outcomes_len(sides: nat, count: nat, current: int)
    ensures
        digit_outcomes(sides, count, current).len() == vstd::arithmetic::power::pow(sides as int, count),
    decreases count, sides + 1,
{
    reveal(vstd::arithmetic::power::pow);
    if count > 0 {
        lemma_upto_len(sides, count, current, sides);
        assert(vstd::arithmetic::power::pow(sides as int, count) == sides * vstd::arithmetic::power::pow(
            sides as int,
            (count - 1) as nat,
        ));
    }
}

proof fn lemma_upto_len(sides: nat, count: nat, current: int, d: nat)
    requires
        count >= 1,
        d <= sides,
    ensures
        digit_outcomes_upto(sides, count, current, d).len() == d * vstd::arithmetic::power::pow(
            sides as int,
            (count - 1) as nat,
        ),
    decreases count, d,
{
    let p = vstd::arithmetic::power::pow(sides as int, (count - 1) as nat);
    if d > 0 {
        lemma_upto_len(sides, count, current, (d - 1) as nat);
        lemma_digit_outcomes_len(sides, (count - 1) as nat, current + d * pow10((count - 1) as nat));
        assert(d * p == (d - 1) * p + p) by (nonlinear_arith);
    } else {
        assert(d * p == 0) by (nonlinear_arith)
            requires
                d == 0,
        ;
    }
}

/// `x` read as `count` decimal digits, from the most significant, has
/// every digit in `1..=sides` (and no further digits).
pub open spec fn digits_within(x: int, sides: nat, count: nat) -> bool
    decreases count,
{
    if count == 0 {
        x == 0
    } else {
        let p = pow10((count - 1) as nat) as int;
        1 <= x / p <= sides && digits_within(x % p, sides, (count - 1) as nat)
    }
}

proof fn lemma_digits_within_bound(x: int, sides: nat, count: nat)
    requires
        sides <= 9,
        digits_within(x, sides, count),
    ensures
        0 <= x < pow10(count),
    decreases count,
{
    if count > 0 {
        let p = pow10((count - 1) as nat) as int;
        lemma_pow10_positive((count - 1) as nat);
        lemma_digits_within_bound(x % p, sides, (count - 1) as nat);
        vstd::arithmetic::div_mod::lemma_fundamental_div_mod(x, p);
        let q = x / p;
        assert(x == p * q + x % p);
        assert(p * q <= p * 9) by (nonlinear_arith)
            requires
                q <= 9,
                p >= 1,
        ;
        assert(p * q >= 0) by (nonlinear_arith)
            requires
                q >= 1,
                p >= 1,
        ;
    }
}

proof fn lemma_digit_outcomes_members(sides: nat, count: nat, current: int, x: int)
    requires
        sides <= 9,
    ensures
        digit_outcomes(sides, count, current).contains(x) <==> digits_within(x - current, sides, count),
    decreases count, sides + 1,
{
    if count == 0 {
        if digit_outcomes(sides, count, current).contains(x) {
            assert(digit_outcomes(sides, count, current)[0] == current);
        }
        if x - current == 0 {
            assert(digit_outcomes(sides, count, current)[0] == x);
        }
    } else {
        lemma_upto_members(sides, count, current, sides, x);
    }
}

proof fn lemma_upto_members(sides: nat, count: nat, current: int, d: nat, x: int)
    requires
        sides <= 9,
        count >= 1,
        d <= sides,
    ensures
        digit_outcomes_upto(sides, count, current, d).contains(x) <==> {
            let p = pow10((count - 1) as nat) as int;
            &&& 1 <= (x - current) / p <= d
            &&& digits_within((x - current) % p, sides, (count - 1) as nat)
        },
    decreases count, d,
{
    let k = (count - 1) as nat;
    let p = pow10(k) as int;
    let y = x - current;
    lemma_pow10_positive(k);
    if d > 0 {
        let a = digit_outcomes_upto(sides, count, current, (d - 1) as nat);
        let b = digit_outcomes(sides, k, current + d * p);
        lemma_upto_members(sides, count, current, (d - 1) as nat, x);
        lemma_digit_outcomes_members(sides, k, current + d * p, x);
        let s = a + b;
        assert(s == digit_outcomes_upto(sides, count, current, d));
        assert(s.contains(x) <==> a.contains(x) || b.contains(x)) by {
            if a.contains(x) {
                let i = choose|i: int| 0 <= i < a.len() && a[i] == x;
                assert(s[i] == x);
            }
            if b.contains(x) {
                let i = choose|i: int| 0 <= i < b.len() && b[i] == x;
                assert(s[a.len() + i] == x);
            }
            if s.contains(x) {
                let i = choose|i: int| 0 <= i < s.len() && s[i] == x;
                if i < a.len() {
                    assert(a[i] == x);
                } else {
                    assert(b[i - a.len()] == x);
                }
            }
        }
        // b holds x exactly when y - d * p has the remaining digits.
        vstd::arithmetic::div_mod::lemma_fundamental_div_mod(y, p);
        if digits_within(x - (current + d * p), sides, k) {
            lemma_digits_within_bound(x - (current + d * p), sides, k);
            let r = y - d * p;
            assert(y == d * p + r);
            vstd::arithmetic::div_mod::lemma_fundamental_div_mod_converse(y, p, d as int, r);
        }
        if y / p == d as int {
            assert(y % p == y - p * d);
            assert(p * d == d * p) by (nonlinear_arith);
        }
    } else {
        assert(digit_outcomes_upto(sides, count, current, d).len() == 0);
    }
}

/// Digit dice give `sides^count` values in all. With at most nine sides,
/// a number is among them exactly when its `count` decimal digits all lie
/// in `1..=sides`.
pub proof fn lemma_digit_values_are_digit_readings(sides: u32, count: u32)
    ensures
        sort_ints(digit_outcomes(sides as nat, count as nat, 0)).len() == vstd::arithmetic::power::pow(
            sides as int,
            count as nat,
        ),
        sides <= 9 ==> forall|x: int|
            #[trigger] sort_ints(digit_outcomes(sides as nat, count as nat, 0)).contains(x)
                <==> digits_within(x, sides as nat, count as nat),
{
    lemma_sort_len(digit_outcomes(sides as nat, count as nat, 0));
    lemma_digit_outcomes_len(sides as nat, count as nat, 0);
    if sides <= 9 {
        lemma_digit_values_ascending(sides, count);
        assert forall|x: int|
            #[trigger] sort_ints(digit_outcomes(sides as nat, count as nat, 0)).contains(x)
                <==> digits_within(x, sides as nat, count as nat) by {
            lemma_digit_outcomes_members(sides as nat, count as nat, 0, x);
        }
    }
}

/// Whether digit dice of `count` digits up to `sides` fit in `u32` and
/// have at least one outcome.
pub fn digit_dice_fit(sides: u32, count: u32) -> (r: bool)
    ensures
        r == (digit_dice_fits(sides, count) && (count == 0 || sides >= 1)),
{
    if count > 10 {
        return false;
    }
    let mut m: u64 = 0;
    let mut i: u32 = 0;
    while i < count
        invariant
            i <= count <= 10,
            m == digit_max(sides as nat, i as nat),
            m <= u32::MAX,
        decreases count - i,
    {
        let p = place_value(i) as u64;
        proof {
            lemma_pow10_monotonic(i as nat, 9);
            lemma_pow10_nine();
        }
        assert(sides * p <= 4_294_967_295 * 1_000_000_000) by (nonlinear_arith)
            requires
                sides <= 4_294_967_295,
                p <= 1_000_000_000,
        ;
        let term: u64 = (sides as u64) * p;
        m = term + m;
        proof {
            lemma_digit_max_monotonic(sides as nat, (i + 1) as nat, count as nat);
        }
        if m > u32::MAX as u64 {
            return false;
        }
        i = i + 1;
    }
    count == 0 || sides >= 1
}

proof fn lemma_digit_max_monotonic(sides: nat, a: nat, b: nat)
    requires
        a <= b,
    ensures
        digit_max(sides, a) <= digit_max(sides, b),
    decreases b,
{
    if a < b {
        lemma_digit_max_monotonic(sides, a, (b - 1) as nat);
    }
}

/// Whether range analysis of `shape` stays within machine integers.
pub fn dice_range_fits(shape: &DiceShape) -> (r: bool)
    ensures
        r == dice_range_defined(*shape),
{
    match shape {
        DiceShape::Roll(roll) => roll.has_modifiers || match roll.scoring {
            ScoringMode::DigitConcatenate => digit_dice_fit(roll.sides, roll.count),
            ScoringMode::Sum => {
                let c = roll.count as u64;
                let d = roll.sides as u64;
                assert(c * d <= 4_294_967_295 * 4_294_967_295) by (nonlinear_arith)
                    requires
                        c <= 4_294_967_295,
                        d <= 4_294_967_295,
                ;
                c * d <= u32::MAX as u64
            },
            ScoringMode::Other => true,
        },
        DiceShape::BinOp { left: Some(roll), right: Some(z), .. } => {
            let c = roll.count as i128;
            let d = roll.sides as i128;
            assert(0 <= c * d <= 4_294_967_295 * 4_294_967_295) by (nonlinear_arith)
                requires
                    0 <= c <= 4_294_967_295,
                    0 <= d <= 4_294_967_295,
            ;
            let top: i128 = c * d;
            let count = roll.count as i128;
            let z = *z as i128;
            let lo = i64::MIN as i128;
            let hi = i64::MAX as i128;
            top <= hi && lo <= top + z && top + z <= hi && lo <= top - z && top - z <= hi && lo <= count + z
                && count + z <= hi && lo <= count - z && count - z <= hi
        },
        _ => true,
    }
}

} // verus!
