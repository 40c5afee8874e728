//! What the table editor asks of a dice expression: a short account of its
//! outcomes for the roll-input hint, and the values that a table rolled
//! with it must cover.

use vstd::prelude::*;
use crate::dice::{
    as_ints, dice_range, dice_range_defined, digit_dice_fits, digit_dice_params, digit_dice_values,
    digit_outcomes, lemma_digit_values_ascending, sort_ints, spec_dice_range,
    spec_digit_dice_params, strictly_ascending, DiceFacts,
};
use crate::init::int_range;
use crate::models::{ModifierRange, ResultEntry, Table};
use crate::error::ValidationError;
use crate::validator::{
    bad_value, coverage, envelope_defined, envelope_outcome, envelope_reason_text, first_invalid_entry,
    first_reversed, lemma_envelope_coverage_exact, outcome_envelope, outcomes_with_coverage, table_outcome,
    EnvelopeError,
};

verus! {

/// How the outcomes of a dice expression were found.
#[derive(Debug, Clone, Copy, PartialEq, Eq)]
pub enum OutcomeKind {
    /// Every value of a digit-dice roll, listed.
    Digit,
    /// The analytic range of the expression.
    Range,
    /// The range seen in the seeded simulation.
    Simulated,
}

/// Lowest and highest outcome of a dice expression, and how many values
/// lie between them: for digit dice the number of distinct values, else
/// the width of the range.
#[derive(Debug, Clone, Copy, PartialEq, Eq)]
pub struct DiceInfo {
    pub kind: OutcomeKind,
    pub min: Option<i64>,
    pub max: Option<i64>,
    pub outcomes: i128,
}

/// The first element of `s`, if any.
pub open spec fn first_of(s: Seq<int>) -> Option<int> {
    if s.len() > 0 {
        Some(s[0])
    } else {
        None
    }
}

/// The last element of `s`, if any.
pub open spec fn last_of(s: Seq<int>) -> Option<int> {
    if s.len() > 0 {
        Some(s.last())
    } else {
        None
    }
}

/// `info` is of `kind` with the range `[lo, hi]`.
pub open spec fn range_info(info: DiceInfo, kind: OutcomeKind, lo: int, hi: int) -> bool {
    &&& info.kind == kind
    &&& info.min == Some(lo as i64)
    &&& info.max == Some(hi as i64)
    &&& info.outcomes == hi - lo + 1
}

/// What [`dice_info`] reports: the error of a failed parse; for digit dice
/// their sorted values; the analytic range where there is one; else the
/// simulated range, or the simulation's error.
pub open spec fn dice_info_outcome(facts: DiceFacts, r: Result<DiceInfo, String>) -> bool {
    match facts.parsed {
        Err(msg) => r matches Err(m) && m@ == msg@,
        Ok(shape) => match spec_digit_dice_params(shape) {
            Some((sides, count)) => {
                let values = sort_ints(digit_outcomes(sides as nat, count as nat, 0));
                &&& r matches Ok(info)
                &&& info.kind == OutcomeKind::Digit
                &&& info.min == match first_of(values) {
                    Some(v) => Some(v as i64),
                    None => None::<i64>,
                }
                &&& info.max == match last_of(values) {
                    Some(v) => Some(v as i64),
                    None => None::<i64>,
                }
                &&& info.outcomes == values.len()
            },
            None => match spec_dice_range(shape) {
                Ok((lo, hi)) => r matches Ok(info) && range_info(
                    info,
                    OutcomeKind::Range,
                    lo as int,
                    hi as int,
                ),
                Err(_) => match facts.simulated {
                    Ok((lo, hi)) => r matches Ok(info) && range_info(
                        info,
                        OutcomeKind::Simulated,
                        lo as int,
                        hi as int,
                    ),
                    Err(msg) => r matches Err(m) && m@ == msg@,
                },
            },
        },
    }
}

/// Describes the outcomes of a dice expression for the roll-input hint.
/// For a range or a simulation, `outcomes` is the width of the envelope,
/// not the number of values that can really come up.
pub fn dice_info(expr: &str, facts: &DiceFacts) -> (r: Result<DiceInfo, String>)
    requires
        facts.parsed matches Ok(shape) ==> dice_range_defined(shape),
        facts.parsed matches Ok(shape) ==> (spec_digit_dice_params(shape) matches Some((sides, count))
            ==> digit_dice_fits(sides, count)),
    ensures
        dice_info_outcome(*facts, r),
{
    let shape = match &facts.parsed {
        Err(msg) => {
            return Err(msg.clone());
        },
        Ok(shape) => shape,
    };
    if let Some((sides, count)) = digit_dice_params(shape) {
        let values = digit_dice_values(sides, count);
        assert(as_ints(values@).len() == values@.len());
        let n = values.len();
        let min = if n > 0 {
            assert(as_ints(values@)[0] == values@[0] as int);
            Some(values[0] as i64)
        } else {
            None
        };
        let max = if n > 0 {
            assert(as_ints(values@)[n - 1] == values@[n - 1] as int);
            Some(values[n - 1] as i64)
        } else {
            None
        };
        return Ok(DiceInfo { kind: OutcomeKind::Digit, min, max, outcomes: n as i128 });
    }
    match dice_range(expr, &facts.parsed) {
        Ok((lo, hi)) => {
            Ok(
                DiceInfo {
                    kind: OutcomeKind::Range,
                    min: Some(lo as i64),
                    max: Some(hi as i64),
                    outcomes: hi as i128 - lo as i128 + 1,
                },
            )
        },
        Err(_) => match &facts.simulated {
            Ok((lo, hi)) => {
                Ok(
                    DiceInfo {
                        kind: OutcomeKind::Simulated,
                        min: Some(*lo),
                        max: Some(*hi),
                        outcomes: *hi as i128 - *lo as i128 + 1,
                    },
                )
            },
            Err(msg) => Err(msg.clone()),
        },
    }
}

/// The values of `v` as integers.
pub open spec fn wide(v: Seq<i64>) -> Seq<int> {
    v.map_values(|x: i64| x as int)
}

/// The modifier range that the editor's three fields describe.
pub open spec fn modifier_of(mod_on: bool, mod_min: i32, mod_max: i32) -> Option<ModifierRange> {
    if mod_on {
        Some(ModifierRange { min: mod_min, max: mod_max })
    } else {
        None
    }
}

/// What [`expected_values`] returns: the error of a failed parse; for
/// digit dice their sorted values, or a refusal when a modifier range is
/// on; otherwise every value of the validator's outcome envelope, or the
/// reason it could not be computed.
pub open spec fn expected_values_outcome(
    roll: Seq<char>,
    modifier: Option<ModifierRange>,
    facts: DiceFacts,
    r: Result<Vec<i64>, String>,
) -> bool {
    match facts.parsed {
        Err(msg) => r matches Err(m) && m@ == msg@,
        Ok(shape) => match spec_digit_dice_params(shape) {
            Some((sides, count)) => if modifier is Some {
                r matches Err(m) && m@ == "modifier_range unsupported for digit dice"@
            } else {
                r matches Ok(v) && wide(v@) == sort_ints(
                    digit_outcomes(sides as nat, count as nat, 0),
                )
            },
            None => exists|e: Result<(i32, i32), EnvelopeError>|
                #![trigger envelope_outcome(roll, modifier, facts, e)]
                envelope_outcome(roll, modifier, facts, e) && match e {
                    Ok((lo, hi)) => r matches Ok(v) && wide(v@) == int_range(lo as int, hi as int),
                    Err(err) => r matches Err(m) && m@ == envelope_reason_text(err),
                },
        },
    }
}

fn widen(values: &Vec<u32>) -> (w: Vec<i64>)
    ensures
        wide(w@) == as_ints(values@),
{
    let mut w: Vec<i64> = Vec::new();
    let mut i: usize = 0;
    while i < values.len()
        invariant
            i <= values.len(),
            wide(w@) == as_ints(values@).take(i as int),
        decreases values.len() - i,
    {
        w.push(values[i] as i64);
        assert(as_ints(values@).take(i + 1) =~= as_ints(values@).take(i as int).push(
            values@[i as int] as int,
        ));
        assert(wide(w@) =~= wide(w@.drop_last()).push(w@.last() as int));
        i = i + 1;
    }
    assert(as_ints(values@).take(values.len() as int) =~= as_ints(values@));
    w
}

fn span(lo: i32, hi: i32) -> (w: Vec<i64>)
    ensures
        wide(w@) == int_range(lo as int, hi as int),
{
    let mut w: Vec<i64> = Vec::new();
    if lo > hi {
        assert(wide(w@) =~= Seq::<int>::empty());
        return w;
    }
    let mut x: i64 = lo as i64;
    while x <= hi as i64
        invariant
            lo <= hi,
            lo <= x <= hi + 1,
            wide(w@) == int_range(lo as int, x - 1),
        decreases hi - x + 1,
    {
        w.push(x);
        assert(wide(w@) =~= wide(w@.drop_last()).push(x as int));
        x = x + 1;
    }
    w
}

/// The values a table rolled with `expr` must cover, for the editor's
/// autofill: the exact values of digit dice (which take no modifier), or
/// every value of the validator's outcome envelope, so that a filled-in
/// table is never one that validation refuses.
pub fn expected_values(expr: &str, mod_on: bool, mod_min: i32, mod_max: i32, facts: &DiceFacts) -> (r:
    Result<Vec<i64>, String>)
    requires
        facts.parsed matches Ok(shape) ==> match spec_digit_dice_params(shape) {
            Some((sides, count)) => !mod_on ==> digit_dice_fits(sides, count),
            None => envelope_defined(modifier_of(mod_on, mod_min, mod_max), *facts),
        },
    ensures
        expected_values_outcome(expr@, modifier_of(mod_on, mod_min, mod_max), *facts, r),
{
    let shape = match &facts.parsed {
        Err(msg) => {
            return Err(msg.clone());
        },
        Ok(shape) => shape,
    };
    if let Some((sides, count)) = digit_dice_params(shape) {
        if mod_on {
            return Err("modifier_range unsupported for digit dice".to_string());
        }
        let values = digit_dice_values(sides, count);
        return Ok(widen(&values));
    }
    let modifier = if mod_on {
        Some(ModifierRange { min: mod_min, max: mod_max })
    } else {
        None
    };
    let e = outcome_envelope(expr, modifier, facts);
    let r = match &e {
        Ok((lo, hi)) => Ok(span(*lo, *hi)),
        Err(err) => Err(err.reason()),
    };
    assert(envelope_outcome(expr@, modifier, *facts, e));
    r
}

/// One entry per value of `vals`, in order, each covering just that value.
pub open spec fn one_entry_per_value(vals: Seq<int>, results: Seq<ResultEntry>) -> bool {
    &&& results.len() == vals.len()
    &&& forall|k: int|
        0 <= k < vals.len() ==> #[trigger] results[k].min == vals[k] && results[k].max == vals[k]
}

proof fn lemma_int_range_values(lo: int, hi: int)
    ensures
        int_range(lo, hi).len() == if hi < lo {
            0
        } else {
            hi - lo + 1
        },
        forall|k: int| 0 <= k < int_range(lo, hi).len() ==> #[trigger] int_range(lo, hi)[k] == lo + k,
    decreases hi - lo + 1,
{
    if hi >= lo {
        lemma_int_range_values(lo, hi - 1);
    }
}

proof fn lemma_one_entry_prefix(vals: Seq<int>, results: Seq<ResultEntry>)
    requires
        one_entry_per_value(vals, results),
        vals.len() > 0,
    ensures
        one_entry_per_value(vals.drop_last(), results.drop_last()),
{
    assert forall|k: int| 0 <= k < vals.drop_last().len() implies #[trigger] results.drop_last()[k].min
        == vals.drop_last()[k] && results.drop_last()[k].max == vals.drop_last()[k] by {
        assert(results[k].min == vals[k]);
    }
}

proof fn lemma_one_entry_not_reversed(vals: Seq<int>, results: Seq<ResultEntry>)
    requires
        one_entry_per_value(vals, results),
    ensures
        first_reversed(results) is None,
    decreases vals.len(),
{
    if vals.len() > 0 {
        lemma_one_entry_prefix(vals, results);
        lemma_one_entry_not_reversed(vals.drop_last(), results.drop_last());
        assert(results[results.len() - 1].min == vals[vals.len() - 1]);
    }
}

/// Entries for distinct values cover each of them once and nothing else.
proof fn lemma_one_entry_coverage(vals: Seq<int>, results: Seq<ResultEntry>, v: int)
    requires
        one_entry_per_value(vals, results),
        strictly_ascending(vals),
    ensures
        coverage(results, v) == if vals.contains(v) {
            1nat
        } else {
            0nat
        },
    decreases vals.len(),
{
    if vals.len() > 0 {
        let init = vals.drop_last();
        lemma_one_entry_prefix(vals, results);
        lemma_one_entry_coverage(init, results.drop_last(), v);
        assert(results[results.len() - 1].min == vals[vals.len() - 1]);
        if vals.last() == v {
            if init.contains(v) {
                let k = choose|k: int| 0 <= k < init.len() && init[k] == v;
                assert(vals[k] < vals[vals.len() - 1]);
            }
            assert(vals.contains(v)) by {
                assert(vals[vals.len() - 1] == v);
            }
        } else {
            if vals.contains(v) {
                let k = choose|k: int| 0 <= k < vals.len() && vals[k] == v;
                assert(init[k] == v);
            }
            if init.contains(v) {
                let k = choose|k: int| 0 <= k < init.len() && init[k] == v;
                assert(vals[k] == v);
            }
        }
    }
}

proof fn lemma_no_invalid_entry(vals: Seq<int>, results: Seq<ResultEntry>, valid: Seq<int>)
    requires
        one_entry_per_value(vals, results),
        forall|k: int| 0 <= k < vals.len() ==> 0 <= #[trigger] vals[k] && valid.contains(vals[k]),
    ensures
        first_invalid_entry(results, valid) is None,
    decreases vals.len(),
{
    if vals.len() > 0 {
        lemma_one_entry_prefix(vals, results);
        lemma_no_invalid_entry(vals.drop_last(), results.drop_last(), valid);
        let v = vals[vals.len() - 1];
        assert(results[results.len() - 1].min == v);
        assert(0 <= v && valid.contains(v));
        assert forall|u: int| v <= u <= v implies !#[trigger] bad_value(valid, u) by {}
    }
}

proof fn lemma_outcomes_covered_once(vals: Seq<int>, results: Seq<ResultEntry>, zero: bool)
    requires
        forall|k: int| 0 <= k < vals.len() ==> coverage(results, #[trigger] vals[k]) == 1,
    ensures
        outcomes_with_coverage(vals, results, zero).len() == 0,
    decreases vals.len(),
{
    if vals.len() > 0 {
        lemma_outcomes_covered_once(vals.drop_last(), results, zero);
        assert(coverage(results, vals[vals.len() - 1]) == 1);
    }
}

/// A table filled in from the editor's expected values, one entry per
/// value, is one the validator accepts: autofill never produces ranges
/// that validation rejects. (Digit dice of more than ten sides are left
/// out: their digits read the same number twice, as 1, 11 and 2, 1 both
/// read 21, so the values repeat.)
pub proof fn lemma_autofill_validates(
    table: Table,
    facts: DiceFacts,
    values: Vec<i64>,
    r: Result<(), ValidationError>,
)
    requires
        table matches Table::Simple { roll, modifier_range, results, .. } && expected_values_outcome(
            roll@,
            modifier_range,
            facts,
            Ok(values),
        ) && one_entry_per_value(wide(values@), results@),
        facts.parsed matches Ok(shape) ==> (spec_digit_dice_params(shape) matches Some((sides, count))
            ==> sides <= 10),
        table_outcome(table, facts, r),
    ensures
        r is Ok,
{
    let vals = wide(values@);
    match table {
        Table::Compound { .. } => {},
        Table::Simple { name, roll, results, modifier_range, .. } => {
            let shape = facts.parsed->Ok_0;
            lemma_one_entry_not_reversed(vals, results@);
            match spec_digit_dice_params(shape) {
                Some((sides, count)) => {
                    let valid = sort_ints(digit_outcomes(sides as nat, count as nat, 0));
                    lemma_digit_values_ascending(sides, count);
                    assert forall|k: int| 0 <= k < vals.len() implies coverage(
                        results@,
                        #[trigger] vals[k],
                    ) == 1 by {
                        lemma_one_entry_coverage(vals, results@, vals[k]);
                    }
                    lemma_no_invalid_entry(vals, results@, valid);
                    lemma_outcomes_covered_once(valid, results@, true);
                    lemma_outcomes_covered_once(valid, results@, false);
                },
                None => {
                    let e = choose|e: Result<(i32, i32), EnvelopeError>|
                        #![trigger envelope_outcome(roll@, modifier_range, facts, e)]
                        envelope_outcome(roll@, modifier_range, facts, e) && match e {
                            Ok((lo, hi)) => Ok::<Vec<i64>, String>(values) matches Ok(v) && wide(
                                v@,
                            ) == int_range(lo as int, hi as int),
                            Err(err) => Ok::<Vec<i64>, String>(values) matches Err(m) && m@
                                == envelope_reason_text(err),
                        };
                    let (lo, hi) = e->Ok_0;
                    lemma_int_range_values(lo as int, hi as int);
                    assert forall|k: int| 0 <= k < results@.len() implies lo <= #[trigger] results@[k].min
                        && results@[k].max <= hi by {
                        assert(vals[k] == lo + k);
                    }
                    assert forall|v: int| lo <= v <= hi implies #[trigger] coverage(results@, v) == 1 by {
                        assert(vals[v - lo] == v);
                        lemma_one_entry_coverage(vals, results@, v);
                    }
                    assert(strictly_ascending(vals)) by {
                        assert forall|i: int, j: int| 0 <= i < j < vals.len() implies vals[i] < vals[j] by {
                            assert(vals[i] == lo + i);
                            assert(vals[j] == lo + j);
                        }
                    }
                    lemma_envelope_coverage_exact(name@, lo as int, hi as int, results@);
                },
            }
        },
    }
}

} // verus!
