//! Rolling on tables.
//!
//! Dice are rolled by an outside engine. Rolling is therefore driven from
//! outside: [`roll_step`] replays a roll against the dice outcomes known so
//! far and either finishes, or names the dice expression whose outcome it
//! needs next. The caller rolls that expression, appends the outcome and
//! asks again; since a roll is a deterministic function of its dice
//! outcomes, each replay repeats the previous one and goes one step further.

use vstd::prelude::*;
use crate::error::{Fault, RollError};
use crate::models::{ChainRef, ModifierRange, ResultEntry, RollResult, Table};
use crate::registry::{lookup, spec_resolve, Registry};
use crate::text::{chars_of, decimal, push_char, push_i64, push_str, string_from_range};
use crate::dice::{spec_dice_range, spec_digit_dice_params, DiceFacts};
use crate::validator::{
    coverage, envelope_coverage_outcome, envelope_table_outcome, first_reversed,
    lemma_envelope_coverage_exact, lemma_no_reversed, namespace_of, namespace_part, table_outcome,
};

verus! {

/// Deepest chain nesting a roll may reach.
pub const MAX_CHAIN_DEPTH: usize = 10;

/// Most rolls a chained table may spend on reroll values.
pub const MAX_REROLL_ATTEMPTS: usize = 100;

/// How the top-level lookup value of a table is determined: by rolling
/// its dice (optionally shifted by a modifier), or directly.
#[derive(Debug, Clone, Copy, PartialEq, Eq, Structural)]
pub enum Lookup {
    Dice { modifier: Option<i32> },
    Direct(i32),
}

/// The outcome of rolling one dice expression.
#[derive(Debug, Clone, PartialEq)]
pub enum DiceOutcome {
    /// A numeric total.
    Value(i64),
    /// The expression rolled to something that is not a number.
    NonNumeric,
    /// The dice engine refused the expression, with its message.
    Failed(String),
}

/// Where a roll stands: finished, or waiting for the outcome of a dice
/// expression.
#[derive(Debug)]
pub enum RollStep {
    Done(Result<RollResult, RollError>),
    Roll(String),
}

/// Narrow a dice total to `i32`, or nothing when it does not fit.
pub fn checked_total_to_i32(total: i64) -> (r: Option<i32>)
    ensures
        i32::MIN <= total <= i32::MAX ==> r == Some(total as i32),
        !(i32::MIN <= total <= i32::MAX) ==> r is None,
{
    if total < i32::MIN as i64 || total > i32::MAX as i64 {
        None
    } else {
        Some(total as i32)
    }
}

/// Index of the first entry covering `v`.
pub open spec fn first_covering(results: Seq<ResultEntry>, v: int) -> Option<int>
    decreases results.len(),
{
    if results.len() == 0 {
        None
    } else {
        match first_covering(results.drop_last(), v) {
            Some(i) => Some(i),
            None => if results.last().min <= v <= results.last().max {
                Some(results.len() - 1)
            } else {
                None
            },
        }
    }
}

/// The smallest entry minimum.
pub open spec fn lowest_min(results: Seq<ResultEntry>) -> int
    decreases results.len(),
{
    if results.len() <= 1 {
        results[0].min as int
    } else {
        let m = lowest_min(results.drop_last());
        if (results.last().min as int) < m {
            results.last().min as int
        } else {
            m
        }
    }
}

/// The largest entry maximum.
pub open spec fn highest_max(results: Seq<ResultEntry>) -> int
    decreases results.len(),
{
    if results.len() <= 1 {
        results[0].max as int
    } else {
        let m = highest_max(results.drop_last());
        if (results.last().max as int) > m {
            results.last().max as int
        } else {
            m
        }
    }
}

/// `v` pinned into `[lo, hi]`.
pub open spec fn clamp(v: int, lo: int, hi: int) -> int {
    if v < lo {
        lo
    } else if v > hi {
        hi
    } else {
        v
    }
}

fn find_entry(results: &Vec<ResultEntry>, v: i64) -> (r: Option<usize>)
    ensures
        r matches Some(i) ==> first_covering(results@, v as int) == Some(i as int) && i < results@.len(),
        r is None ==> first_covering(results@, v as int) is None,
{
    let mut i: usize = 0;
    while i < results.len()
        invariant
            i <= results@.len(),
            first_covering(results@.take(i as int), v as int) is None,
        decreases results@.len() - i,
    {
        let ghost t = results@.take(i + 1);
        assert(t.drop_last() =~= results@.take(i as int));
        if results[i].min as i64 <= v && v <= results[i].max as i64 {
            proof {
                lemma_first_covering_prefix(results@, i + 1, v as int);
            }
            return Some(i);
        }
        i = i + 1;
    }
    assert(results@.take(results@.len() as int) =~= results@);
    None
}

proof fn lemma_first_covering_prefix(results: Seq<ResultEntry>, n: int, v: int)
    requires
        0 <= n <= results.len(),
        first_covering(results.take(n), v) is Some,
    ensures
        first_covering(results, v) == first_covering(results.take(n), v),
    decreases results.len() - n,
{
    if n < results.len() {
        assert(results.take(n + 1).drop_last() =~= results.take(n));
        lemma_first_covering_prefix(results, n + 1, v);
    } else {
        assert(results.take(n) =~= results);
    }
}

fn entry_bounds(results: &Vec<ResultEntry>) -> (r: (i32, i32))
    requires
        results@.len() > 0,
    ensures
        r.0 == lowest_min(results@),
        r.1 == highest_max(results@),
{
    let mut lo = results[0].min;
    let mut hi = results[0].max;
    let mut i: usize = 1;
    assert(results@.take(1).len() == 1);
    while i < results.len()
        invariant
            1 <= i <= results@.len(),
            lo == lowest_min(results@.take(i as int)),
            hi == highest_max(results@.take(i as int)),
        decreases results@.len() - i,
    {
        let ghost t = results@.take(i + 1);
        assert(t.drop_last() =~= results@.take(i as int));
        if results[i].min < lo {
            lo = results[i].min;
        }
        if results[i].max > hi {
            hi = results[i].max;
        }
        i = i + 1;
    }
    assert(results@.take(results@.len() as int) =~= results@);
    (lo, hi)
}

/// What one roll of a simple table's dice decides.
#[derive(Debug)]
pub enum MainDecision {
    /// Use lookup value `lookup`, which entry `entry` covers.
    Accept { lookup: i32, entry: usize },
    /// The raw die is a reroll value: roll again.
    Retry,
    /// The roll fails.
    Fail(RollError),
}

/// A [`MainDecision`] with its error taken as a [`Fault`].
pub enum Decision {
    Accept { lookup: i32, entry: int },
    Retry,
    Fail(Fault),
}

impl View for MainDecision {
    type V = Decision;

    open spec fn view(&self) -> Decision {
        match self {
            MainDecision::Accept { lookup, entry } => Decision::Accept {
                lookup: *lookup,
                entry: *entry as int,
            },
            MainDecision::Retry => Decision::Retry,
            MainDecision::Fail(e) => Decision::Fail(e@),
        }
    }
}

/// The lookup value for raw die `raw`: shifted by the modifier and pinned
/// to the entries' span when the table takes modifiers, else the die.
pub open spec fn lookup_value(
    results: Seq<ResultEntry>,
    modifier_range: Option<ModifierRange>,
    modifier: Option<i32>,
    raw: int,
) -> int {
    if modifier_range is Some && results.len() > 0 {
        clamp(
            raw + match modifier {
                Some(m) => m as int,
                None => 0,
            },
            lowest_min(results),
            highest_max(results),
        )
    } else {
        raw
    }
}

/// What one dice outcome decides for a simple table named `name` rolled
/// with `expr`, after `attempts` earlier rerolls.
pub open spec fn main_spec(
    name: Seq<char>,
    expr: Seq<char>,
    results: Seq<ResultEntry>,
    modifier_range: Option<ModifierRange>,
    modifier: Option<i32>,
    reroll: Seq<u32>,
    attempts: nat,
    outcome: DiceOutcome,
) -> Decision {
    match outcome {
        DiceOutcome::Failed(msg) => Decision::Fail(
            Fault::DiceEvaluation { table: name, expr, reason: msg@ },
        ),
        DiceOutcome::NonNumeric => Decision::Fail(
            Fault::DiceEvaluation {
                table: name,
                expr,
                reason: "dice notation produced a non-numeric outcome"@,
            },
        ),
        DiceOutcome::Value(v) => if v < 0 {
            Decision::Fail(Fault::NegativeRoll { value: v })
        } else if v > i32::MAX {
            Decision::Fail(Fault::RollOutOfRange { table: name, value: v })
        } else {
            let lv = lookup_value(results, modifier_range, modifier, v as int);
            match first_covering(results, lv) {
                None => Decision::Fail(Fault::RollOutOfRange { table: name, value: lv as i64 }),
                Some(k) => if reroll.contains(v as u32) {
                    if attempts + 1 >= MAX_REROLL_ATTEMPTS {
                        Decision::Fail(
                            Fault::RerollExhausted {
                                table: name,
                                attempts: (attempts + 1) as usize,
                                reroll_values: reroll,
                            },
                        )
                    } else {
                        Decision::Retry
                    }
                } else {
                    Decision::Accept { lookup: lv as i32, entry: k }
                },
            }
        },
    }
}

/// The entries of a table that takes modifiers span an ordered range.
pub open spec fn entries_ordered(results: Seq<ResultEntry>) -> bool {
    results.len() > 0 ==> lowest_min(results) <= highest_max(results)
}

fn contains_u32(v: &[u32], x: u32) -> (r: bool)
    ensures
        r == v@.contains(x),
{
    let mut i: usize = 0;
    while i < v.len()
        invariant
            i <= v@.len(),
            forall|k: int| 0 <= k < i ==> v@[k] != x,
        decreases v@.len() - i,
    {
        if v[i] == x {
            assert(v@[i as int] == x);
            return true;
        }
        i = i + 1;
    }
    false
}

/// Decide what one roll of a simple table's dice means: the lookup value
/// and entry it selects, a reroll, or a failure.
pub fn main_decision(
    name: &str,
    expr: &str,
    results: &Vec<ResultEntry>,
    modifier_range: Option<ModifierRange>,
    modifier: Option<i32>,
    reroll: &[u32],
    attempts: usize,
    outcome: &DiceOutcome,
) -> (d: MainDecision)
    requires
        attempts < MAX_REROLL_ATTEMPTS,
    ensures
        d@ == main_spec(
            name@,
            expr@,
            results@,
            modifier_range,
            modifier,
            reroll@,
            attempts as nat,
            *outcome,
        ),
        d matches MainDecision::Accept { entry, .. } ==> entry < results@.len(),
{
    let v = match outcome {
        DiceOutcome::Failed(msg) => {
            return MainDecision::Fail(
                RollError::DiceEvaluation {
                    table: name.to_owned(),
                    expr: expr.to_owned(),
                    reason: msg.clone(),
                },
            );
        },
        DiceOutcome::NonNumeric => {
            return MainDecision::Fail(
                RollError::DiceEvaluation {
                    table: name.to_owned(),
                    expr: expr.to_owned(),
                    reason: "dice notation produced a non-numeric outcome".to_owned(),
                },
            );
        },
        DiceOutcome::Value(v) => *v,
    };
    if v < 0 {
        return MainDecision::Fail(RollError::NegativeRoll { value: v });
    }
    let raw = match checked_total_to_i32(v) {
        Some(x) => x,
        None => {
            return MainDecision::Fail(RollError::RollOutOfRange { table: name.to_owned(), value: v });
        },
    };
    let lookup: i32 = match modifier_range {
        Some(_) => if results.len() > 0 {
            let (lo, hi) = entry_bounds(results);
            let shifted = raw as i64 + match modifier {
                Some(m) => m as i64,
                None => 0,
            };
            if shifted < lo as i64 {
                lo
            } else if shifted > hi as i64 {
                hi
            } else {
                shifted as i32
            }
        } else {
            raw
        },
        None => raw,
    };
    let entry = match find_entry(results, lookup as i64) {
        Some(k) => k,
        None => {
            return MainDecision::Fail(
                RollError::RollOutOfRange { table: name.to_owned(), value: lookup as i64 },
            );
        },
    };
    if contains_u32(reroll, raw as u32) {
        if attempts + 1 >= MAX_REROLL_ATTEMPTS {
            return MainDecision::Fail(
                RollError::RerollExhausted {
                    table: name.to_owned(),
                    attempts: attempts + 1,
                    reroll_values: slice_to_vec(reroll),
                },
            );
        }
        return MainDecision::Retry;
    }
    MainDecision::Accept { lookup, entry }
}

fn slice_to_vec(v: &[u32]) -> (r: Vec<u32>)
    ensures
        r@ == v@,
{
    let mut r: Vec<u32> = Vec::new();
    let mut i: usize = 0;
    while i < v.len()
        invariant
            i <= v@.len(),
            r@ == v@.take(i as int),
        decreases v@.len() - i,
    {
        r.push(v[i]);
        i = i + 1;
        assert(r@ =~= v@.take(i as int));
    }
    assert(v@.take(v@.len() as int) =~= v@);
    r
}

/// A roll result with its texts taken as character sequences.
pub struct RollView {
    pub name: Seq<char>,
    pub roll: Option<i32>,
    pub text: Option<Seq<char>>,
    pub children: Seq<RollView>,
}

/// Why a replayed roll stopped short of a result: it needs the outcome
/// of a dice expression it has not been given, or it failed.
pub enum Stop {
    Need(Seq<char>),
    Fail(Fault),
}

pub open spec fn text_view(t: Option<String>) -> Option<Seq<char>> {
    match t {
        Some(s) => Some(s@),
        None => None,
    }
}

/// The value form of a roll result.
pub open spec fn roll_view(r: RollResult) -> RollView
    decreases r,
{
    RollView {
        name: r.table_name@,
        roll: r.roll,
        text: text_view(r.text),
        children: Seq::new(
            r.children@.len(),
            |i: int|
                if 0 <= i < r.children@.len() {
                    roll_view(r.children@[i])
                } else {
                    arbitrary()
                },
        ),
    }
}

/// `q` is the first `}` of `t` at or after `from`.
pub open spec fn is_first_close(t: Seq<char>, from: int, q: int) -> bool {
    &&& from <= q < t.len()
    &&& t[q] == '}'
    &&& forall|j: int| from <= j < q ==> t[j] != '}'
}

/// A dice placeholder `{expr}` (with a non-empty `expr`) opens at `i`:
/// the index of its closing brace.
pub open spec fn placeholder_at(t: Seq<char>, i: int) -> Option<int> {
    if 0 <= i < t.len() && t[i] == '{' && exists|q: int|
        #[trigger] is_first_close(t, i + 1, q) && q >= i + 2 {
        Some(choose|q: int| #[trigger] is_first_close(t, i + 1, q) && q >= i + 2)
    } else {
        None
    }
}

/// Result text `t` from index `i` on with its dice placeholders replaced,
/// reading dice outcomes from `outs` at `pos`: each placeholder takes the
/// next outcome and becomes its number, or stays as written when the
/// outcome is not a number. `Err` names the expression whose outcome is
/// missing. The second part is where the reading stopped.
pub open spec fn interp(t: Seq<char>, i: nat, outs: Seq<DiceOutcome>, pos: nat) -> (
    Result<Seq<char>, Seq<char>>,
    nat,
)
    decreases t.len() - i,
{
    if i >= t.len() {
        (Ok(Seq::empty()), pos)
    } else {
        match placeholder_at(t, i as int) {
            Some(q) => {
                if pos >= outs.len() {
                    (Err(t.subrange(i + 1 as int, q)), pos)
                } else {
                    let rep = match outs[pos as int] {
                        DiceOutcome::Value(v) => decimal(v as int),
                        _ => t.subrange(i as int, q + 1),
                    };
                    prepend_text(rep, interp(t, (q + 1) as nat, outs, pos + 1))
                }
            },
            None => prepend_text(seq![t[i as int]], interp(t, i + 1, outs, pos)),
        }
    }
}

/// `r` with `p` put before its text.
pub open spec fn prepend_text(p: Seq<char>, r: (Result<Seq<char>, Seq<char>>, nat)) -> (
    Result<Seq<char>, Seq<char>>,
    nat,
) {
    (
        match r.0 {
            Ok(s) => Ok(p + s),
            Err(e) => Err(e),
        },
        r.1,
    )
}

proof fn lemma_first_close_unique(t: Seq<char>, from: int, a: int, b: int)
    requires
        is_first_close(t, from, a),
        is_first_close(t, from, b),
    ensures
        a == b,
{
    if a < b {
        assert(t[a] != '}');
    } else if b < a {
        assert(t[b] != '}');
    }
}

fn interpolate(text: &str, outs: &Vec<DiceOutcome>, pos: &mut usize) -> (r: Result<String, String>)
    requires
        *old(pos) <= outs@.len(),
    ensures
        *final(pos) <= outs@.len(),
        interp(text@, 0, outs@, *old(pos) as nat) == (
            match r {
                Ok(s) => Ok(s@),
                Err(e) => Err(e@),
            },
            *final(pos) as nat,
        ),
{
    let t = chars_of(text);
    let mut out = String::new();
    let mut i: usize = 0;
    let ghost start = *pos as nat;
    assert(out@ + Seq::<char>::empty() =~= Seq::<char>::empty());
    while i < t.len()
        invariant
            t@ == text@,
            i <= t@.len(),
            *pos <= outs@.len(),
            start == *old(pos) as nat,
            interp(t@, 0, outs@, start) == prepend_text(out@, interp(t@, i as nat, outs@, *pos as nat)),
        decreases t@.len() - i,
    {
        if t[i] == '{' {
            let mut q: usize = i + 1;
            while q < t.len() && t[q] != '}'
                invariant
                    i + 1 <= q <= t@.len(),
                    forall|j: int| i + 1 <= j < q ==> t@[j] != '}',
                decreases t@.len() - q,
            {
                q = q + 1;
            }
            if q < t.len() && q >= i + 2 {
                proof {
                    assert(is_first_close(t@, i + 1, q as int));
                    let c = choose|c: int| #[trigger] is_first_close(t@, i + 1, c) && c >= i + 2;
                    lemma_first_close_unique(t@, i + 1, c, q as int);
                    assert(placeholder_at(t@, i as int) == Some(q as int));
                }
                if *pos >= outs.len() {
                    assert(interp(t@, i as nat, outs@, *pos as nat) == (
                        Err::<Seq<char>, Seq<char>>(t@.subrange(i + 1, q as int)),
                        *pos as nat,
                    ));
                    return Err(string_from_range(t.as_slice(), i + 1, q));
                }
                let ghost before = out@;
                let ghost p0 = *pos as nat;
                let ghost i0 = i as nat;
                let ghost mut rep: Seq<char> = Seq::empty();
                match &outs[*pos] {
                    DiceOutcome::Value(v) => {
                        push_i64(&mut out, *v);
                        proof {
                            rep = decimal(*v as int);
                        }
                    },
                    _ => {
                        let lit = string_from_range(t.as_slice(), i, q + 1);
                        push_str(&mut out, lit.as_str());
                        proof {
                            rep = lit@;
                        }
                    },
                }
                *pos = *pos + 1;
                i = q + 1;
                proof {
                    assert(out@ =~= before + rep);
                    let rest = interp(t@, i as nat, outs@, *pos as nat);
                    assert(interp(t@, i0, outs@, p0) == prepend_text(rep, rest));
                    match rest.0 {
                        Ok(s) => {
                            assert(before + (rep + s) =~= out@ + s);
                        },
                        Err(_) => {},
                    }
                }
                continue;
            }
            proof {
                if exists|c: int| #[trigger] is_first_close(t@, i + 1, c) && c >= i + 2 {
                    let c = choose|c: int| #[trigger] is_first_close(t@, i + 1, c) && c >= i + 2;
                    if q < t@.len() {
                        assert(is_first_close(t@, i + 1, q as int));
                        lemma_first_close_unique(t@, i + 1, c, q as int);
                    } else {
                        assert(t@[c] != '}');
                    }
                }
                assert(placeholder_at(t@, i as int) is None);
            }
        }
        let ghost before = out@;
        push_char(&mut out, t[i]);
        proof {
            let rest = interp(t@, (i + 1) as nat, outs@, *pos as nat);
            match rest.0 {
                Ok(s) => {
                    assert(before + (seq![t@[i as int]] + s) =~= out@ + s);
                },
                Err(_) => {},
            }
        }
        i = i + 1;
    }
    assert(out@ + Seq::<char>::empty() =~= out@);
    Ok(out)
}

/// Why [`roll_node`] stopped: it needs the outcome of a dice expression
/// it was not given, or the roll failed.
#[derive(Debug)]
pub enum Halt {
    Need(String),
    Fail(RollError),
}

impl View for Halt {
    type V = Stop;

    open spec fn view(&self) -> Stop {
        match self {
            Halt::Need(e) => Stop::Need(e@),
            Halt::Fail(f) => Stop::Fail(f@),
        }
    }
}

/// The rerolls a simple table's dice may take, from outcome `pos` on,
/// after `attempts` earlier ones: the lookup value and entry index chosen.
pub open spec fn attempt_run(
    name: Seq<char>,
    expr: Seq<char>,
    results: Seq<ResultEntry>,
    modifier_range: Option<ModifierRange>,
    modifier: Option<i32>,
    reroll: Seq<u32>,
    outs: Seq<DiceOutcome>,
    pos: nat,
    attempts: nat,
) -> (Result<(i32, int), Stop>, nat)
    decreases MAX_REROLL_ATTEMPTS - attempts,
{
    if attempts >= MAX_REROLL_ATTEMPTS {
        (
            Err(
                Stop::Fail(
                    Fault::RerollExhausted {
                        table: name,
                        attempts: attempts as usize,
                        reroll_values: reroll,
                    },
                ),
            ),
            pos,
        )
    } else if pos >= outs.len() {
        (Err(Stop::Need(expr)), pos)
    } else {
        match main_spec(
            name,
            expr,
            results,
            modifier_range,
            modifier,
            reroll,
            attempts,
            outs[pos as int],
        ) {
            Decision::Accept { lookup, entry } => (Ok((lookup, entry)), pos + 1),
            Decision::Retry => attempt_run(
                name,
                expr,
                results,
                modifier_range,
                modifier,
                reroll,
                outs,
                pos + 1,
                attempts + 1,
            ),
            Decision::Fail(f) => (Err(Stop::Fail(f)), pos + 1),
        }
    }
}

/// How a simple table picks its lookup value and entry.
pub open spec fn choose_spec(
    name: Seq<char>,
    expr: Seq<char>,
    results: Seq<ResultEntry>,
    modifier_range: Option<ModifierRange>,
    reroll: Seq<u32>,
    outs: Seq<DiceOutcome>,
    pos: nat,
    lookup: Lookup,
) -> (Result<(i32, int), Stop>, nat) {
    match lookup {
        Lookup::Direct(v) => match first_covering(results, v as int) {
            Some(k) => (Ok((v, k)), pos),
            None => (Err(Stop::Fail(Fault::RollOutOfRange { table: name, value: v as i64 })), pos),
        },
        Lookup::Dice { modifier } => if modifier is Some && modifier_range is None {
            (Err(Stop::Fail(Fault::ModifierNotSupported { table: name })), pos)
        } else {
            attempt_run(name, expr, results, modifier_range, modifier, reroll, outs, pos, 0)
        },
    }
}

/// The text of a chosen entry, its placeholders filled.
pub open spec fn text_run(text: Option<String>, outs: Seq<DiceOutcome>, pos: nat) -> (
    Result<Option<Seq<char>>, Stop>,
    nat,
) {
    match text {
        None => (Ok(None), pos),
        Some(t) => {
            let r = interp(t@, 0, outs, pos);
            (
                match r.0 {
                    Ok(s) => Ok(Some(s)),
                    Err(e) => Err(Stop::Need(e)),
                },
                r.1,
            )
        },
    }
}

/// Where a reference seen from namespace `ns` leads: `id` itself when it
/// is registered, else its resolution from `ns` (when there is one).
pub open spec fn resolve_target(reg: Seq<(Seq<char>, Table)>, id: Seq<char>, ns: Seq<char>) -> Option<
    (Seq<char>, Table),
> {
    match lookup(reg, id) {
        Some(t) => Some((id, t)),
        None => if ns.len() > 0 {
            spec_resolve(reg, id, ns)
        } else {
            None
        },
    }
}

/// The tables an entry chains to, each with its reroll values.
pub open spec fn chain_targets(chain: Option<Vec<ChainRef>>) -> Seq<(Seq<char>, Seq<u32>)> {
    match chain {
        Some(c) => c@.map_values(|r: ChainRef| (r.spec_table_id(), r.spec_reroll())),
        None => Seq::empty(),
    }
}

/// The sub-tables of a compound table, with no reroll values.
pub open spec fn sub_targets(tables: Seq<String>) -> Seq<(Seq<char>, Seq<u32>)> {
    tables.map_values(|t: String| (t@, Seq::<u32>::empty()))
}

/// How many more levels of nesting may still occur below `depth`.
pub open spec fn budget(depth: nat) -> nat {
    if depth <= MAX_CHAIN_DEPTH + 1 {
        (MAX_CHAIN_DEPTH + 2 - depth) as nat
    } else {
        0
    }
}

/// The roll of the table that `id` names, seen from namespace `ns`, at
/// chain depth `depth`, reading dice outcomes from `outs` at `pos`:
/// the result (or why it stopped) and where the reading ended.
pub open spec fn run_table(
    reg: Seq<(Seq<char>, Table)>,
    id: Seq<char>,
    ns: Seq<char>,
    outs: Seq<DiceOutcome>,
    pos: nat,
    depth: nat,
    reroll: Seq<u32>,
    lookup: Lookup,
) -> (Result<RollView, Stop>, nat)
    decreases budget(depth), 0nat,
{
    if depth > MAX_CHAIN_DEPTH {
        (Err(Stop::Fail(Fault::ChainDepthExceeded { table: id, limit: MAX_CHAIN_DEPTH })), pos)
    } else {
        match resolve_target(reg, id, ns) {
            None => (Err(Stop::Fail(Fault::TableNotFound { id })), pos),
            Some(found) => match found.1 {
                Table::Simple { name, roll, results, modifier_range, .. } => {
                    let chosen = choose_spec(
                        name@,
                        roll@,
                        results@,
                        modifier_range,
                        reroll,
                        outs,
                        pos,
                        lookup,
                    );
                    match chosen.0 {
                        Err(st) => (Err(st), chosen.1),
                        Ok(pick) => {
                            let entry = results@[pick.1];
                            let texted = text_run(entry.text, outs, chosen.1);
                            match texted.0 {
                                Err(st) => (Err(st), texted.1),
                                Ok(text) => {
                                    let kids = run_list(
                                        reg,
                                        chain_targets(entry.chain),
                                        0,
                                        namespace_of(found.0),
                                        outs,
                                        texted.1,
                                        depth + 1,
                                    );
                                    match kids.0 {
                                        Err(st) => (Err(st), kids.1),
                                        Ok(children) => (
                                            Ok(
                                                RollView {
                                                    name: name@,
                                                    roll: Some(pick.0),
                                                    text,
                                                    children,
                                                },
                                            ),
                                            kids.1,
                                        ),
                                    }
                                },
                            }
                        },
                    }
                },
                Table::Compound { name, tables, .. } => match lookup {
                    Lookup::Direct(_) => (
                        Err(Stop::Fail(Fault::DirectValueNotSupported { table: name@ })),
                        pos,
                    ),
                    Lookup::Dice { modifier: Some(_) } => (
                        Err(Stop::Fail(Fault::ModifierNotSupported { table: name@ })),
                        pos,
                    ),
                    Lookup::Dice { modifier: None } => {
                        let kids = run_list(
                            reg,
                            sub_targets(tables@),
                            0,
                            namespace_of(found.0),
                            outs,
                            pos,
                            depth + 1,
                        );
                        match kids.0 {
                            Err(st) => (Err(st), kids.1),
                            Ok(children) => (
                                Ok(RollView { name: name@, roll: None, text: None, children }),
                                kids.1,
                            ),
                        }
                    },
                },
            },
        }
    }
}

/// The rolls of `targets[i..]`, one after another, each seen from `ns`.
pub open spec fn run_list(
    reg: Seq<(Seq<char>, Table)>,
    targets: Seq<(Seq<char>, Seq<u32>)>,
    i: nat,
    ns: Seq<char>,
    outs: Seq<DiceOutcome>,
    pos: nat,
    depth: nat,
) -> (Result<Seq<RollView>, Stop>, nat)
    decreases budget(depth), targets.len() - i,
{
    if i >= targets.len() {
        (Ok(Seq::empty()), pos)
    } else {
        let first = run_table(
            reg,
            targets[i as int].0,
            ns,
            outs,
            pos,
            depth,
            targets[i as int].1,
            Lookup::Dice { modifier: None },
        );
        match first.0 {
            Err(st) => (Err(st), first.1),
            Ok(v) => prepend_kids(seq![v], run_list(reg, targets, i + 1, ns, outs, first.1, depth)),
        }
    }
}

/// `r` with `done` put before its results.
pub open spec fn prepend_kids(done: Seq<RollView>, r: (Result<Seq<RollView>, Stop>, nat)) -> (
    Result<Seq<RollView>, Stop>,
    nat,
) {
    (
        match r.0 {
            Ok(s) => Ok(done + s),
            Err(st) => Err(st),
        },
        r.1,
    )
}

/// The value form of a finished or halted node roll.
pub open spec fn node_view(r: Result<RollResult, Halt>) -> Result<RollView, Stop> {
    match r {
        Ok(x) => Ok(roll_view(x)),
        Err(h) => Err(h@),
    }
}

/// The value forms of roll results, in order.
pub open spec fn views_of(s: Seq<RollResult>) -> Seq<RollView> {
    Seq::new(s.len(), |i: int| roll_view(s[i]))
}

fn choose_entry(
    name: &String,
    expr: &String,
    results: &Vec<ResultEntry>,
    modifier_range: Option<ModifierRange>,
    reroll: &[u32],
    outs: &Vec<DiceOutcome>,
    pos: &mut usize,
    lookup: Lookup,
) -> (r: Result<(i32, usize), Halt>)
    requires
        *old(pos) <= outs@.len(),
    ensures
        *final(pos) <= outs@.len(),
        r matches Ok((_, k)) ==> k < results@.len(),
        choose_spec(
            name@,
            expr@,
            results@,
            modifier_range,
            reroll@,
            outs@,
            *old(pos) as nat,
            lookup,
        ) == (
            match r {
                Ok((v, k)) => Ok((v, k as int)),
                Err(h) => Err(h@),
            },
            *final(pos) as nat,
        ),
{
    match lookup {
        Lookup::Direct(value) => {
            match find_entry(results, value as i64) {
                Some(k) => Ok((value, k)),
                None => Err(
                    Halt::Fail(RollError::RollOutOfRange { table: name.clone(), value: value as i64 }),
                ),
            }
        },
        Lookup::Dice { modifier } => {
            if modifier.is_some() && modifier_range.is_none() {
                return Err(Halt::Fail(RollError::ModifierNotSupported { table: name.clone() }));
            }
            let ghost start = *pos as nat;
            let mut attempts: usize = 0;
            loop
                invariant
                    attempts < MAX_REROLL_ATTEMPTS,
                    *pos <= outs@.len(),
                                attempt_run(
                        name@,
                        expr@,
                        results@,
                        modifier_range,
                        modifier,
                        reroll@,
                        outs@,
                        start,
                        0,
                    ) == attempt_run(
                        name@,
                        expr@,
                        results@,
                        modifier_range,
                        modifier,
                        reroll@,
                        outs@,
                        *pos as nat,
                        attempts as nat,
                    ),
                    start == *old(pos) as nat,
                    lookup == (Lookup::Dice { modifier }),
                    !(modifier is Some && modifier_range is None),
                decreases MAX_REROLL_ATTEMPTS - attempts,
            {
                if *pos >= outs.len() {
                    return Err(Halt::Need(expr.clone()));
                }
                let d = main_decision(
                    name.as_str(),
                    expr.as_str(),
                    results,
                    modifier_range,
                    modifier,
                    reroll,
                    attempts,
                    &outs[*pos],
                );
                *pos = *pos + 1;
                match d {
                    MainDecision::Accept { lookup, entry } => {
                        return Ok((lookup, entry));
                    },
                    MainDecision::Retry => {
                        attempts = attempts + 1;
                    },
                    MainDecision::Fail(e) => {
                        return Err(Halt::Fail(e));
                    },
                }
            }
        },
    }
}

/// The value form of a list of roll targets.
pub open spec fn targets_view(v: Seq<(&str, &[u32])>) -> Seq<(Seq<char>, Seq<u32>)> {
    v.map_values(|p: (&str, &[u32])| (p.0@, p.1@))
}

fn roll_children(
    registry: &Registry,
    targets: &Vec<(&str, &[u32])>,
    ns: &str,
    outs: &Vec<DiceOutcome>,
    pos: &mut usize,
    depth: usize,
) -> (r: Result<Vec<RollResult>, Halt>)
    requires
        registry.wf(),
        *old(pos) <= outs@.len(),
        1 <= depth <= MAX_CHAIN_DEPTH + 1,
    ensures
        *final(pos) <= outs@.len(),
        run_list(
            registry@,
            targets_view(targets@),
            0,
            ns@,
            outs@,
            *old(pos) as nat,
            depth as nat,
        ) == (
            match r {
                Ok(v) => Ok(views_of(v@)),
                Err(h) => Err(h@),
            },
            *final(pos) as nat,
        ),
    decreases MAX_CHAIN_DEPTH + 2 - depth, 1nat,
{
    let ghost tv = targets_view(targets@);
    let ghost start = *pos as nat;
    let mut children: Vec<RollResult> = Vec::new();
    let mut i: usize = 0;
    assert(views_of(children@) + Seq::<RollView>::empty() =~= Seq::<RollView>::empty());
    assert(views_of(children@) =~= Seq::<RollView>::empty());
    while i < targets.len()
        invariant
            registry.wf(),
                1 <= depth <= MAX_CHAIN_DEPTH + 1,
            i <= targets@.len(),
            *pos <= outs@.len(),
            tv == targets_view(targets@),
            start == *old(pos) as nat,
            run_list(registry@, tv, 0, ns@, outs@, start, depth as nat) == prepend_kids(
                views_of(children@),
                run_list(registry@, tv, i as nat, ns@, outs@, *pos as nat, depth as nat),
            ),
        decreases targets@.len() - i,
    {
        let ghost before = views_of(children@);
        let ghost p0 = *pos as nat;
        let c = roll_node(
            registry,
            targets[i].0,
            ns,
            outs,
            pos,
            depth,
            targets[i].1,
            Lookup::Dice { modifier: None },
        );
        match c {
            Ok(x) => {
                children.push(x);
                proof {
                    assert(views_of(children@) =~= before + seq![roll_view(x)]);
                    let rest = run_list(registry@, tv, (i + 1) as nat, ns@, outs@, *pos as nat, depth as nat);
                    assert(run_list(registry@, tv, i as nat, ns@, outs@, p0, depth as nat)
                        == prepend_kids(seq![roll_view(x)], rest));
                    match rest.0 {
                        Ok(vs) => {
                            assert(before + (seq![roll_view(x)] + vs) =~= views_of(children@) + vs);
                        },
                        Err(_) => {},
                    }
                }
            },
            Err(h) => {
                return Err(h);
            },
        }
        i = i + 1;
    }
    Ok(children)
}

fn chain_target_list(chain: &Option<Vec<ChainRef>>) -> (r: Vec<(&str, &[u32])>)
    ensures
        targets_view(r@) == chain_targets(*chain),
{
    let mut r: Vec<(&str, &[u32])> = Vec::new();
    match chain {
        None => {},
        Some(chains) => {
            let mut i: usize = 0;
            while i < chains.len()
                invariant
                    i <= chains@.len(),
                    r@.len() == i,
                    targets_view(r@) =~= chain_targets(*chain).take(i as int),
                    *chain == Some(*chains),
                decreases chains@.len() - i,
            {
                let ghost before = r@;
                let t = chains[i].table_id();
                let rv = chains[i].reroll_values();
                r.push((t, rv));
                proof {
                    let want = chain_targets(*chain);
                    assert(want[i as int] == (chains@[i as int].spec_table_id(), chains@[i as int].spec_reroll()));
                    assert(r@ == before.push((t, rv)));
                    assert forall|k: int| 0 <= k <= i implies #[trigger] targets_view(r@)[k] == want[k] by {
                        if k < i {
                            assert(r@[k] == before[k]);
                            assert(targets_view(before)[k] == want.take(i as int)[k]);
                        }
                    }
                }
                i = i + 1;
                assert(targets_view(r@) =~= chain_targets(*chain).take(i as int));
            }
        },
    }
    assert(targets_view(r@) =~= chain_targets(*chain));
    r
}

fn sub_target_list<'a>(tables: &'a Vec<String>, none: &'a [u32]) -> (r: Vec<(&'a str, &'a [u32])>)
    requires
        none@.len() == 0,
    ensures
        targets_view(r@) == sub_targets(tables@),
{
    let mut r: Vec<(&str, &[u32])> = Vec::new();
    let mut i: usize = 0;
    while i < tables.len()
        invariant
            i <= tables@.len(),
            r@.len() == i,
            none@.len() == 0,
            targets_view(r@) =~= sub_targets(tables@).take(i as int),
        decreases tables@.len() - i,
    {
        let ghost before = r@;
        r.push((tables[i].as_str(), none));
        proof {
            let want = sub_targets(tables@);
            assert(none@ =~= Seq::<u32>::empty());
            assert forall|k: int| 0 <= k <= i implies #[trigger] targets_view(r@)[k] == want[k] by {
                if k < i {
                    assert(r@[k] == before[k]);
                    assert(targets_view(before)[k] == want.take(i as int)[k]);
                }
            }
        }
        i = i + 1;
        assert(targets_view(r@) =~= sub_targets(tables@).take(i as int));
    }
    assert(targets_view(r@) =~= sub_targets(tables@));
    r
}

fn roll_node(
    registry: &Registry,
    table_id: &str,
    ns: &str,
    outs: &Vec<DiceOutcome>,
    pos: &mut usize,
    depth: usize,
    reroll: &[u32],
    lookup: Lookup,
) -> (r: Result<RollResult, Halt>)
    requires
        registry.wf(),
        *old(pos) <= outs@.len(),
        depth <= MAX_CHAIN_DEPTH + 1,
    ensures
        *final(pos) <= outs@.len(),
        run_table(
            registry@,
            table_id@,
            ns@,
            outs@,
            *old(pos) as nat,
            depth as nat,
            reroll@,
            lookup,
        ) == (node_view(r), *final(pos) as nat),
    decreases MAX_CHAIN_DEPTH + 2 - depth, 0nat,
{
    if depth > MAX_CHAIN_DEPTH {
        return Err(
            Halt::Fail(
                RollError::ChainDepthExceeded { table: table_id.to_owned(), limit: MAX_CHAIN_DEPTH },
            ),
        );
    }
    let found: (&str, &Table) = match registry.get(table_id) {
        Some(t) => (table_id, t),
        None => {
            if ns.is_empty() {
                return Err(Halt::Fail(RollError::TableNotFound { id: table_id.to_owned() }));
            }
            match registry.resolve(table_id, ns) {
                Some(p) => p,
                None => {
                    return Err(Halt::Fail(RollError::TableNotFound { id: table_id.to_owned() }));
                },
            }
        },
    };
    proof {
        assert(resolve_target(registry@, table_id@, ns@) == Some((found.0@, *found.1)));
    }
    let child_ns = namespace_part(found.0);
    match found.1 {
        Table::Simple { name, roll, results, modifier_range, .. } => {
            let picked = choose_entry(name, roll, results, *modifier_range, reroll, outs, pos, lookup);
            let (lv, k) = match picked {
                Ok(p) => p,
                Err(h) => {
                    return Err(h);
                },
            };
            let entry = &results[k];
            let ghost p_chosen = *pos as nat;
            let text: Option<String> = match &entry.text {
                None => None,
                Some(t) => match interpolate(t.as_str(), outs, pos) {
                    Ok(s) => Some(s),
                    Err(e) => {
                        return Err(Halt::Need(e));
                    },
                },
            };
            assert(text_run(entry.text, outs@, p_chosen) == (
                Ok::<Option<Seq<char>>, Stop>(text_view(text)),
                *pos as nat,
            ));
            let targets = chain_target_list(&entry.chain);
            let children = match roll_children(registry, &targets, child_ns.as_str(), outs, pos, depth + 1) {
                Ok(c) => c,
                Err(h) => {
                    return Err(h);
                },
            };
            let out = RollResult { table_name: name.clone(), roll: Some(lv), text, children };
            assert(roll_view(out).children =~= views_of(out.children@));
            Ok(out)
        },
        Table::Compound { name, tables, .. } => {
            match lookup {
                Lookup::Direct(_) => {
                    return Err(
                        Halt::Fail(RollError::DirectValueNotSupported { table: name.clone() }),
                    );
                },
                Lookup::Dice { modifier: Some(_) } => {
                    return Err(Halt::Fail(RollError::ModifierNotSupported { table: name.clone() }));
                },
                Lookup::Dice { modifier: None } => {},
            }
            let none: Vec<u32> = Vec::new();
            let targets = sub_target_list(tables, none.as_slice());
            let children = match roll_children(registry, &targets, child_ns.as_str(), outs, pos, depth + 1) {
                Ok(c) => c,
                Err(h) => {
                    return Err(h);
                },
            };
            let out = RollResult { table_name: name.clone(), roll: None, text: None, children };
            assert(roll_view(out).children =~= views_of(out.children@));
            Ok(out)
        },
    }
}

/// Where a replayed roll stands, as values: finished (with its result
/// or error), or waiting for the outcome of a dice expression.
pub enum Progress {
    Done(Result<RollView, Fault>),
    Roll(Seq<char>),
}

impl View for RollStep {
    type V = Progress;

    open spec fn view(&self) -> Progress {
        match self {
            RollStep::Done(Ok(r)) => Progress::Done(Ok(roll_view(*r))),
            RollStep::Done(Err(e)) => Progress::Done(Err(e@)),
            RollStep::Roll(expr) => Progress::Roll(expr@),
        }
    }
}

/// The progress of a replayed roll that ran as `run` says.
pub open spec fn progress(run: (Result<RollView, Stop>, nat)) -> Progress {
    match run.0 {
        Ok(v) => Progress::Done(Ok(v)),
        Err(Stop::Fail(f)) => Progress::Done(Err(f)),
        Err(Stop::Need(e)) => Progress::Roll(e),
    }
}

/// The replayed roll of `table_id` with `outcomes` as the outcomes of its
/// dice, in the order they are rolled.
pub open spec fn replay(
    reg: Seq<(Seq<char>, Table)>,
    table_id: Seq<char>,
    lookup: Lookup,
    outcomes: Seq<DiceOutcome>,
) -> (Result<RollView, Stop>, nat) {
    run_table(reg, table_id, Seq::empty(), outcomes, 0, 0, Seq::empty(), lookup)
}

fn roll_step(registry: &Registry, table_id: &str, lookup: Lookup, outcomes: &Vec<DiceOutcome>) -> (r:
    RollStep)
    requires
    ensures
        r@ == progress(replay(registry@, table_id@, lookup, outcomes@)),
{
    proof {
        use_type_invariant(registry);
    }
    let mut pos: usize = 0;
    let none: Vec<u32> = Vec::new();
    assert(none@ =~= Seq::<u32>::empty());
    let top = String::new();
    match roll_node(registry, table_id, top.as_str(), outcomes, &mut pos, 0, none.as_slice(), lookup) {
        Ok(x) => RollStep::Done(Ok(x)),
        Err(Halt::Fail(e)) => RollStep::Done(Err(e)),
        Err(Halt::Need(expr)) => RollStep::Roll(expr),
    }
}

/// Roll `table_id` (a fully qualified id), given the outcomes of the dice
/// rolled so far: either the finished roll, or the dice expression to
/// roll next. Append that expression's outcome and call again.
pub fn roll(registry: &Registry, table_id: &str, outcomes: &Vec<DiceOutcome>) -> (r: RollStep)
    requires
    ensures
        r@ == progress(replay(registry@, table_id@, Lookup::Dice { modifier: None }, outcomes@)),
{
    roll_step(registry, table_id, Lookup::Dice { modifier: None }, outcomes)
}

/// [`roll`], with the top-level roll shifted by `modifier` (and pinned to
/// the table's entries); only tables that declare a modifier range take
/// one.
pub fn roll_with_modifier(
    registry: &Registry,
    table_id: &str,
    modifier: Option<i32>,
    outcomes: &Vec<DiceOutcome>,
) -> (r: RollStep)
    requires
    ensures
        r@ == progress(replay(registry@, table_id@, Lookup::Dice { modifier }, outcomes@)),
{
    roll_step(registry, table_id, Lookup::Dice { modifier }, outcomes)
}

/// [`roll`], with the top-level table looked up at `value` instead of
/// rolled; chained tables are still rolled.
pub fn roll_with_value(
    registry: &Registry,
    table_id: &str,
    value: i32,
    outcomes: &Vec<DiceOutcome>,
) -> (r: RollStep)
    requires
    ensures
        r@ == progress(replay(registry@, table_id@, Lookup::Direct(value), outcomes@)),
{
    roll_step(registry, table_id, Lookup::Direct(value), outcomes)
}

/// Some entry of `results` covers `v`.
pub open spec fn covered(results: Seq<ResultEntry>, v: int) -> bool {
    exists|k: int| 0 <= k < results.len() && #[trigger] results[k].min <= v <= results[k].max
}

/// Every value from the lowest entry minimum to the highest entry maximum
/// is covered.
pub open spec fn covers_span(results: Seq<ResultEntry>) -> bool {
    forall|v: int| lowest_min(results) <= v <= highest_max(results) ==> #[trigger] covered(results, v)
}

proof fn lemma_first_covering_iff(results: Seq<ResultEntry>, v: int)
    ensures
        first_covering(results, v) is Some <==> covered(results, v),
        first_covering(results, v) matches Some(k) ==> 0 <= k < results.len() && results[k].min <= v
            <= results[k].max,
    decreases results.len(),
{
    if results.len() > 0 {
        let init = results.drop_last();
        lemma_first_covering_iff(init, v);
        if covered(results, v) {
            let k = choose|k: int| 0 <= k < results.len() && #[trigger] results[k].min <= v <= results[k].max;
            if k < results.len() - 1 {
                assert(init[k] == results[k]);
                assert(covered(init, v));
            }
        }
        if covered(init, v) {
            let k = choose|k: int| 0 <= k < init.len() && #[trigger] init[k].min <= v <= init[k].max;
            assert(results[k] == init[k]);
        }
        match first_covering(init, v) {
            Some(k) => {
                assert(results[k] == init[k]);
            },
            None => {},
        }
    }
}

proof fn lemma_span_bounds(results: Seq<ResultEntry>, k: int)
    requires
        0 <= k < results.len(),
    ensures
        lowest_min(results) <= results[k].min,
        highest_max(results) >= results[k].max,
    decreases results.len(),
{
    if results.len() > 1 && k < results.len() - 1 {
        lemma_span_bounds(results.drop_last(), k);
        assert(results.drop_last()[k] == results[k]);
    }
}

/// With a modifier range, the lookup value of any raw die and modifier
/// lies within the span of the table's entries.
pub proof fn lemma_modified_lookup_within_span(
    results: Seq<ResultEntry>,
    modifier_range: Option<ModifierRange>,
    modifier: Option<i32>,
    raw: int,
)
    requires
        modifier_range is Some,
        results.len() > 0,
        entries_ordered(results),
    ensures
        lowest_min(results) <= lookup_value(results, modifier_range, modifier, raw) <= highest_max(
            results,
        ),
{
}

/// A table that takes modifiers and whose entries leave no gap in their
/// span never fails a numeric die as out of range: whatever the die and
/// the modifier, some entry is chosen, a reroll is asked for, or the
/// rerolls run out.
pub proof fn lemma_gapless_modifier_table_in_range(
    name: Seq<char>,
    expr: Seq<char>,
    results: Seq<ResultEntry>,
    modifier_range: Option<ModifierRange>,
    modifier: Option<i32>,
    reroll: Seq<u32>,
    attempts: nat,
    v: i64,
)
    requires
        modifier_range is Some,
        results.len() > 0,
        entries_ordered(results),
        covers_span(results),
        0 <= v <= i32::MAX,
    ensures
        !(main_spec(
            name,
            expr,
            results,
            modifier_range,
            modifier,
            reroll,
            attempts,
            DiceOutcome::Value(v),
        ) matches Decision::Fail(Fault::RollOutOfRange { .. })),
{
    let lv = lookup_value(results, modifier_range, modifier, v as int);
    assert(covered(results, lv));
    lemma_first_covering_iff(results, lv);
}

/// A table without modifier range that is reached with reroll values
/// never settles on one of them.
pub proof fn lemma_reroll_values_avoided(
    name: Seq<char>,
    expr: Seq<char>,
    results: Seq<ResultEntry>,
    reroll: Seq<u32>,
    outs: Seq<DiceOutcome>,
    pos: nat,
    attempts: nat,
)
    ensures
        attempt_run(name, expr, results, None, None, reroll, outs, pos, attempts).0 matches Ok(p)
            ==> 0 <= p.0 && !reroll.contains(p.0 as u32),
    decreases MAX_REROLL_ATTEMPTS - attempts,
{
    if attempts < MAX_REROLL_ATTEMPTS && pos < outs.len() {
        match main_spec(name, expr, results, None, None, reroll, attempts, outs[pos as int]) {
            Decision::Retry => {
                lemma_reroll_values_avoided(name, expr, results, reroll, outs, pos + 1, attempts + 1);
            },
            _ => {},
        }
    }
}

/// A direct lookup keeps the value it was given: a simple table looked
/// up at `value` reports `value` as its roll, or fails it as out of range
/// when no entry covers it (it is never pinned to the entries).
pub proof fn lemma_direct_value_kept(
    reg: Seq<(Seq<char>, Table)>,
    id: Seq<char>,
    ns: Seq<char>,
    outs: Seq<DiceOutcome>,
    pos: nat,
    depth: nat,
    reroll: Seq<u32>,
    value: i32,
)
    requires
        depth <= MAX_CHAIN_DEPTH,
        resolve_target(reg, id, ns) matches Some(f) && f.1 is Simple,
    ensures
        ({
            let f = resolve_target(reg, id, ns).unwrap();
            let results = f.1->Simple_results@;
            let run = run_table(reg, id, ns, outs, pos, depth, reroll, Lookup::Direct(value));
            &&& run.0 matches Ok(v) ==> v.roll == Some(value)
            &&& !covered(results, value as int) ==> run.0 == Err::<RollView, Stop>(
                Stop::Fail(
                    Fault::RollOutOfRange { table: f.1->Simple_name@, value: value as i64 },
                ),
            )
        }),
{
    let f = resolve_target(reg, id, ns).unwrap();
    lemma_first_covering_iff(f.1->Simple_results@, value as int);
}

/// The first `n` outcomes of `a` and `b` are the same.
pub open spec fn same_prefix(a: Seq<DiceOutcome>, b: Seq<DiceOutcome>, n: nat) -> bool {
    &&& n <= a.len()
    &&& n <= b.len()
    &&& forall|k: int| 0 <= k < n ==> #[trigger] a[k] == b[k]
}

/// The run did not stop for want of a dice outcome.
pub open spec fn finished<T>(r: Result<T, Stop>) -> bool {
    !(r matches Err(Stop::Need(_)))
}

proof fn lemma_interp_replay(t: Seq<char>, i: nat, outs: Seq<DiceOutcome>, outs2: Seq<DiceOutcome>, pos: nat)
    requires
        pos <= outs.len(),
    ensures
        ({
            let r = interp(t, i, outs, pos);
            &&& pos <= r.1 <= outs.len()
            &&& r.0 is Err ==> r.1 == outs.len()
            &&& r.0 is Ok && same_prefix(outs, outs2, r.1) ==> interp(t, i, outs2, pos) == r
        }),
    decreases t.len() - i,
{
    if i < t.len() {
        match placeholder_at(t, i as int) {
            Some(q) => {
                if pos < outs.len() {
                    lemma_interp_replay(t, (q + 1) as nat, outs, outs2, pos + 1);
                }
            },
            None => {
                lemma_interp_replay(t, i + 1, outs, outs2, pos);
            },
        }
    }
}

proof fn lemma_attempt_replay(
    name: Seq<char>,
    expr: Seq<char>,
    results: Seq<ResultEntry>,
    modifier_range: Option<ModifierRange>,
    modifier: Option<i32>,
    reroll: Seq<u32>,
    outs: Seq<DiceOutcome>,
    outs2: Seq<DiceOutcome>,
    pos: nat,
    attempts: nat,
)
    requires
        pos <= outs.len(),
    ensures
        ({
            let r = attempt_run(name, expr, results, modifier_range, modifier, reroll, outs, pos, attempts);
            &&& pos <= r.1 <= outs.len()
            &&& !finished(r.0) ==> r.1 == outs.len()
            &&& finished(r.0) && same_prefix(outs, outs2, r.1) ==> attempt_run(
                name,
                expr,
                results,
                modifier_range,
                modifier,
                reroll,
                outs2,
                pos,
                attempts,
            ) == r
        }),
    decreases MAX_REROLL_ATTEMPTS - attempts,
{
    if attempts < MAX_REROLL_ATTEMPTS && pos < outs.len() {
        lemma_attempt_replay(
            name,
            expr,
            results,
            modifier_range,
            modifier,
            reroll,
            outs,
            outs2,
            pos + 1,
            attempts + 1,
        );
        let r = attempt_run(name, expr, results, modifier_range, modifier, reroll, outs, pos, attempts);
        if finished(r.0) && same_prefix(outs, outs2, r.1) {
            assert(outs2[pos as int] == outs[pos as int]);
        }
    }
}

proof fn lemma_choose_replay(
    name: Seq<char>,
    expr: Seq<char>,
    results: Seq<ResultEntry>,
    modifier_range: Option<ModifierRange>,
    reroll: Seq<u32>,
    outs: Seq<DiceOutcome>,
    outs2: Seq<DiceOutcome>,
    pos: nat,
    lookup: Lookup,
)
    requires
        pos <= outs.len(),
    ensures
        ({
            let r = choose_spec(name, expr, results, modifier_range, reroll, outs, pos, lookup);
            &&& pos <= r.1 <= outs.len()
            &&& !finished(r.0) ==> r.1 == outs.len()
            &&& finished(r.0) && same_prefix(outs, outs2, r.1) ==> choose_spec(
                name,
                expr,
                results,
                modifier_range,
                reroll,
                outs2,
                pos,
                lookup,
            ) == r
        }),
{
    match lookup {
        Lookup::Dice { modifier } => {
            lemma_attempt_replay(name, expr, results, modifier_range, modifier, reroll, outs, outs2, pos, 0);
        },
        _ => {},
    }
}

proof fn lemma_run_table_replay(
    reg: Seq<(Seq<char>, Table)>,
    id: Seq<char>,
    ns: Seq<char>,
    outs: Seq<DiceOutcome>,
    outs2: Seq<DiceOutcome>,
    pos: nat,
    depth: nat,
    reroll: Seq<u32>,
    lookup: Lookup,
)
    requires
        pos <= outs.len(),
    ensures
        ({
            let r = run_table(reg, id, ns, outs, pos, depth, reroll, lookup);
            &&& pos <= r.1 <= outs.len()
            &&& !finished(r.0) ==> r.1 == outs.len()
            &&& finished(r.0) && same_prefix(outs, outs2, r.1) ==> run_table(
                reg,
                id,
                ns,
                outs2,
                pos,
                depth,
                reroll,
                lookup,
            ) == r
        }),
    decreases budget(depth), 0nat,
{
    if depth <= MAX_CHAIN_DEPTH {
        match resolve_target(reg, id, ns) {
            None => {},
            Some(found) => match found.1 {
                Table::Simple { name, roll, results, modifier_range, .. } => {
                    lemma_choose_replay(name@, roll@, results@, modifier_range, reroll, outs, outs2, pos, lookup);
                    let chosen = choose_spec(name@, roll@, results@, modifier_range, reroll, outs, pos, lookup);
                    match chosen.0 {
                        Err(_) => {},
                        Ok(pick) => {
                            let entry = results@[pick.1];
                            match entry.text {
                                Some(t) => {
                                    lemma_interp_replay(t@, 0, outs, outs2, chosen.1);
                                },
                                None => {},
                            }
                            let texted = text_run(entry.text, outs, chosen.1);
                            match texted.0 {
                                Err(_) => {},
                                Ok(_) => {
                                    lemma_run_list_replay(
                                        reg,
                                        chain_targets(entry.chain),
                                        0,
                                        namespace_of(found.0),
                                        outs,
                                        outs2,
                                        texted.1,
                                        depth + 1,
                                    );
                                },
                            }
                        },
                    }
                },
                Table::Compound { name, tables, .. } => {
                    lemma_run_list_replay(
                        reg,
                        sub_targets(tables@),
                        0,
                        namespace_of(found.0),
                        outs,
                        outs2,
                        pos,
                        depth + 1,
                    );
                },
            },
        }
    }
}

proof fn lemma_run_list_replay(
    reg: Seq<(Seq<char>, Table)>,
    targets: Seq<(Seq<char>, Seq<u32>)>,
    i: nat,
    ns: Seq<char>,
    outs: Seq<DiceOutcome>,
    outs2: Seq<DiceOutcome>,
    pos: nat,
    depth: nat,
)
    requires
        pos <= outs.len(),
    ensures
        ({
            let r = run_list(reg, targets, i, ns, outs, pos, depth);
            &&& pos <= r.1 <= outs.len()
            &&& !finished(r.0) ==> r.1 == outs.len()
            &&& finished(r.0) && same_prefix(outs, outs2, r.1) ==> run_list(
                reg,
                targets,
                i,
                ns,
                outs2,
                pos,
                depth,
            ) == r
        }),
    decreases budget(depth), targets.len() - i,
{
    if i < targets.len() {
        lemma_run_table_replay(
            reg,
            targets[i as int].0,
            ns,
            outs,
            outs2,
            pos,
            depth,
            targets[i as int].1,
            Lookup::Dice { modifier: None },
        );
        let first = run_table(
            reg,
            targets[i as int].0,
            ns,
            outs,
            pos,
            depth,
            targets[i as int].1,
            Lookup::Dice { modifier: None },
        );
        match first.0 {
            Err(_) => {},
            Ok(_) => {
                lemma_run_list_replay(reg, targets, i + 1, ns, outs, outs2, first.1, depth);
            },
        }
    }
}

/// Replaying is sound: a replay reads the outcomes in order and no
/// further than it was given; one that stops for want of an outcome has
/// read them all; and one that finished depends only on the outcomes it
/// read, so any longer list that starts with them finishes the same way.
pub proof fn lemma_replay_sound(
    reg: Seq<(Seq<char>, Table)>,
    table_id: Seq<char>,
    lookup: Lookup,
    outcomes: Seq<DiceOutcome>,
    more: Seq<DiceOutcome>,
)
    ensures
        ({
            let r = replay(reg, table_id, lookup, outcomes);
            &&& r.1 <= outcomes.len()
            &&& r.0 matches Err(Stop::Need(_)) ==> r.1 == outcomes.len()
            &&& finished(r.0) && same_prefix(outcomes, more, r.1) ==> replay(
                reg,
                table_id,
                lookup,
                more,
            ) == r
        }),
{
    lemma_run_table_replay(reg, table_id, Seq::empty(), outcomes, more, 0, 0, Seq::empty(), lookup);
}

proof fn lemma_coverage_covered(results: Seq<ResultEntry>, v: int)
    ensures
        coverage(results, v) > 0 ==> covered(results, v),
    decreases results.len(),
{
    if results.len() > 0 {
        lemma_coverage_covered(results.drop_last(), v);
        if covered(results.drop_last(), v) {
            let k = choose|k: int| 0 <= k < results.drop_last().len() && #[trigger] results.drop_last()[k].min <= v <= results.drop_last()[k].max;
            assert(results[k] == results.drop_last()[k]);
        }
        assert(results[results.len() - 1] == results.last());
    }
}

proof fn lemma_span_attained(results: Seq<ResultEntry>)
    requires
        results.len() > 0,
    ensures
        exists|k: int| 0 <= k < results.len() && #[trigger] results[k].min == lowest_min(results),
        exists|k: int| 0 <= k < results.len() && #[trigger] results[k].max == highest_max(results),
    decreases results.len(),
{
    if results.len() > 1 {
        let init = results.drop_last();
        lemma_span_attained(init);
        let a = choose|k: int| 0 <= k < init.len() && #[trigger] init[k].min == lowest_min(init);
        let b = choose|k: int| 0 <= k < init.len() && #[trigger] init[k].max == highest_max(init);
        assert(results[a] == init[a] && results[b] == init[b]);
        assert(results[results.len() - 1] == results.last());
    } else {
        assert(results[0].min == lowest_min(results));
        assert(results[0].max == highest_max(results));
    }
}

/// A table that validation accepts with a modifier range never fails a
/// numeric roll as out of range, whatever the modifier: its entries cover
/// every value of their span, and the lookup value is pinned into it.
pub proof fn lemma_validated_modifier_table_in_range(
    table: Table,
    facts: DiceFacts,
    modifier: Option<i32>,
    reroll: Seq<u32>,
    attempts: nat,
    v: i64,
)
    requires
        table_outcome(table, facts, Ok(())),
        table matches Table::Simple { modifier_range: Some(_), results, .. } && results@.len() > 0,
        0 <= v <= i32::MAX,
    ensures
        !(main_spec(
            table->Simple_name@,
            table->Simple_roll@,
            table->Simple_results@,
            table->Simple_modifier_range,
            modifier,
            reroll,
            attempts,
            DiceOutcome::Value(v),
        ) matches Decision::Fail(Fault::RollOutOfRange { .. })),
{
    let results = table->Simple_results@;
    let mr = table->Simple_modifier_range.unwrap();
    let name = table->Simple_name@;
    assert(facts.parsed is Ok);
    let shape = facts.parsed->Ok_0;
    assert(first_reversed(results) is None);
    lemma_no_reversed(results);
    assert(spec_digit_dice_params(shape) is None);
    assert(envelope_table_outcome(name, table->Simple_roll@, Some(mr), facts, results, Ok(())));
    assert(mr.min <= mr.max);
    assert(spec_dice_range(shape) is Ok);
    let (lo, hi) = spec_dice_range(shape)->Ok_0;
    let (elo, ehi) = (lo + mr.min, hi + mr.max);
    assert(envelope_coverage_outcome(name, elo, ehi, results, Ok(())));
    lemma_envelope_coverage_exact(table->Simple_name@, elo, ehi, results);
    lemma_span_attained(results);
    let a = choose|k: int| 0 <= k < results.len() && #[trigger] results[k].min == lowest_min(results);
    let b = choose|k: int| 0 <= k < results.len() && #[trigger] results[k].max == highest_max(results);
    lemma_span_bounds(results, 0);
    assert(elo <= results[a].min && results[a].max <= ehi);
    assert(elo <= results[b].min && results[b].max <= ehi);
    assert forall|x: int| lowest_min(results) <= x <= highest_max(results) implies #[trigger] covered(results, x) by {
        lemma_coverage_covered(results, x);
    }
    lemma_gapless_modifier_table_in_range(
        table->Simple_name@,
        table->Simple_roll@,
        results,
        table->Simple_modifier_range,
        modifier,
        reroll,
        attempts,
        v,
    );
}

/// A modifier is refused, before any die is read, by a compound table and
/// by a simple table that declares no modifier range.
pub proof fn lemma_modifier_refused(
    reg: Seq<(Seq<char>, Table)>,
    table_id: Seq<char>,
    t: Table,
    modifier: i32,
    outcomes: Seq<DiceOutcome>,
)
    requires
        lookup(reg, table_id) == Some(t),
        match t {
            Table::Simple { modifier_range, .. } => modifier_range is None,
            Table::Compound { .. } => true,
        },
    ensures
        replay(reg, table_id, Lookup::Dice { modifier: Some(modifier) }, outcomes) == (
            Err::<RollView, Stop>(Stop::Fail(Fault::ModifierNotSupported { table: t.spec_name() })),
            0nat,
        ),
{
}

/// A direct lookup reads no die before it decides: a compound table
/// refuses it; a simple table fails a value that no entry covers, and
/// otherwise reports the value itself as its roll, with the text of the
/// first entry that covers it.
pub proof fn lemma_direct_lookup(
    reg: Seq<(Seq<char>, Table)>,
    table_id: Seq<char>,
    t: Table,
    value: i32,
    outcomes: Seq<DiceOutcome>,
)
    requires
        lookup(reg, table_id) == Some(t),
    ensures
        ({
            let run = replay(reg, table_id, Lookup::Direct(value), outcomes);
            match t {
                Table::Compound { name, .. } => run == (
                    Err::<RollView, Stop>(Stop::Fail(Fault::DirectValueNotSupported { table: name@ })),
                    0nat,
                ),
                Table::Simple { name, results, .. } => {
                    &&& !covered(results@, value as int) ==> run == (
                        Err::<RollView, Stop>(
                            Stop::Fail(Fault::RollOutOfRange { table: name@, value: value as i64 }),
                        ),
                        0nat,
                    )
                    &&& run.0 matches Ok(r) ==> (r.roll == Some(value) && r.name == name@ && (first_covering(
                        results@,
                        value as int,
                    ) matches Some(k) && text_run(results@[k].text, outcomes, 0).0 == Ok::<
                        Option<Seq<char>>,
                        Stop,
                    >(r.text)))
                },
            }
        }),
{
    if let Table::Simple { results, .. } = t {
        lemma_first_covering_iff(results@, value as int);
    }
}

proof fn lemma_attempt_entry(
    name: Seq<char>,
    expr: Seq<char>,
    results: Seq<ResultEntry>,
    modifier_range: Option<ModifierRange>,
    modifier: Option<i32>,
    reroll: Seq<u32>,
    outs: Seq<DiceOutcome>,
    pos: nat,
    attempts: nat,
)
    ensures
        attempt_run(name, expr, results, modifier_range, modifier, reroll, outs, pos, attempts).0 matches Ok(
            p,
        ) ==> first_covering(results, p.0 as int) == Some(p.1),
    decreases MAX_REROLL_ATTEMPTS - attempts,
{
    if attempts < MAX_REROLL_ATTEMPTS && pos < outs.len() {
        match main_spec(name, expr, results, modifier_range, modifier, reroll, attempts, outs[pos as int]) {
            Decision::Retry => {
                lemma_attempt_entry(name, expr, results, modifier_range, modifier, reroll, outs, pos + 1, attempts + 1);
            },
            _ => {
                if let DiceOutcome::Value(v) = outs[pos as int] {
                    if 0 <= v <= i32::MAX {
                        lemma_first_covering_iff(
                            results,
                            lookup_value(results, modifier_range, modifier, v as int),
                        );
                    }
                }
            },
        }
    }
}

proof fn lemma_run_list_len(
    reg: Seq<(Seq<char>, Table)>,
    targets: Seq<(Seq<char>, Seq<u32>)>,
    i: nat,
    ns: Seq<char>,
    outs: Seq<DiceOutcome>,
    pos: nat,
    depth: nat,
)
    requires
        i <= targets.len(),
    ensures
        run_list(reg, targets, i, ns, outs, pos, depth).0 matches Ok(kids) ==> kids.len() == targets.len() - i,
    decreases targets.len() - i,
{
    if i < targets.len() {
        let first = run_table(reg, targets[i as int].0, ns, outs, pos, depth, targets[i as int].1, Lookup::Dice { modifier: None });
        if first.0 is Ok {
            lemma_run_list_len(reg, targets, i + 1, ns, outs, first.1, depth);
        }
    }
}

/// The shape of a finished roll: a compound table gives no roll and no
/// text and one child per sub-table; a simple table gives its roll, the
/// entry that covers it, and one child per reference that entry chains.
pub proof fn lemma_roll_shape(
    reg: Seq<(Seq<char>, Table)>,
    table_id: Seq<char>,
    t: Table,
    how: Lookup,
    outcomes: Seq<DiceOutcome>,
)
    requires
        lookup(reg, table_id) == Some(t),
    ensures
        replay(reg, table_id, how, outcomes).0 matches Ok(r) ==> (r.name == t.spec_name() && match t {
            Table::Compound { tables, .. } => r.roll is None && r.text is None && r.children.len()
                == tables@.len(),
            Table::Simple { results, .. } => (r.roll matches Some(v) && (first_covering(results@, v as int) matches Some(
                k,
            ) && r.children.len() == chain_targets(results@[k].chain).len())),
        }),
{
    let run = replay(reg, table_id, how, outcomes);
    match t {
        Table::Compound { tables, .. } => {
            lemma_run_list_len(reg, sub_targets(tables@), 0, namespace_of(table_id), outcomes, 0, 1);
        },
        Table::Simple { name, roll, results, modifier_range, .. } => {
            let chosen = choose_spec(name@, roll@, results@, modifier_range, Seq::empty(), outcomes, 0, how);
            if let Lookup::Dice { modifier } = how {
                lemma_attempt_entry(name@, roll@, results@, modifier_range, modifier, Seq::empty(), outcomes, 0, 0);
            }
            if let Ok(pick) = chosen.0 {
                let entry = results@[pick.1];
                let texted = text_run(entry.text, outcomes, chosen.1);
                lemma_run_list_len(reg, chain_targets(entry.chain), 0, namespace_of(table_id), outcomes, texted.1, 1);
            }
        },
    }
}

/// With a modifier, a table that declares a modifier range looks its
/// first die up shifted by the modifier and pinned to the entries' span
/// (in unbounded integers, so no modifier overflows).
pub proof fn lemma_modifier_shifts_lookup(
    reg: Seq<(Seq<char>, Table)>,
    table_id: Seq<char>,
    t: Table,
    modifier: i32,
    die: i64,
    outcomes: Seq<DiceOutcome>,
)
    requires
        lookup(reg, table_id) == Some(t),
        t is Simple,
        t->Simple_modifier_range is Some,
        outcomes.len() > 0,
        outcomes[0] == DiceOutcome::Value(die),
    ensures
        replay(reg, table_id, Lookup::Dice { modifier: Some(modifier) }, outcomes).0 matches Ok(r) ==> r.roll
            == Some(
            lookup_value(
                t->Simple_results@,
                t->Simple_modifier_range,
                Some(modifier),
                die as int,
            ) as i32,
        ),
{
    assert(!Seq::<u32>::empty().contains(die as u32));
}

/// A simple table without modifier range that is reached with reroll
/// values never settles on one of them.
pub proof fn lemma_chained_rerolls_avoided(
    reg: Seq<(Seq<char>, Table)>,
    id: Seq<char>,
    ns: Seq<char>,
    outs: Seq<DiceOutcome>,
    pos: nat,
    depth: nat,
    reroll: Seq<u32>,
)
    requires
        resolve_target(reg, id, ns) matches Some(f) && f.1 is Simple && f.1->Simple_modifier_range is None,
    ensures
        run_table(reg, id, ns, outs, pos, depth, reroll, Lookup::Dice { modifier: None }).0 matches Ok(v)
            ==> (v.roll matches Some(l) && 0 <= l && !reroll.contains(l as u32)),
{
    let f = resolve_target(reg, id, ns).unwrap();
    if let Table::Simple { name, roll, results, .. } = f.1 {
        lemma_reroll_values_avoided(name@, roll@, results@, reroll, outs, pos, 0);
    }
}

/// `v` and everything below it lie within `levels` levels.
pub open spec fn within_depth(v: RollView, levels: nat) -> bool
    decreases levels,
{
    levels >= 1 && forall|i: int|
        0 <= i < v.children.len() ==> within_depth(#[trigger] v.children[i], (levels - 1) as nat)
}

proof fn lemma_run_table_depth(
    reg: Seq<(Seq<char>, Table)>,
    id: Seq<char>,
    ns: Seq<char>,
    outs: Seq<DiceOutcome>,
    pos: nat,
    depth: nat,
    reroll: Seq<u32>,
    how: Lookup,
)
    ensures
        run_table(reg, id, ns, outs, pos, depth, reroll, how).0 matches Ok(v) ==> (depth <= MAX_CHAIN_DEPTH
            && within_depth(v, (MAX_CHAIN_DEPTH + 1 - depth) as nat)),
    decreases budget(depth), 0nat,
{
    if depth <= MAX_CHAIN_DEPTH {
        match resolve_target(reg, id, ns) {
            None => {},
            Some(found) => match found.1 {
                Table::Simple { name, roll, results, modifier_range, .. } => {
                    let chosen = choose_spec(name@, roll@, results@, modifier_range, reroll, outs, pos, how);
                    if let Ok(pick) = chosen.0 {
                        let entry = results@[pick.1];
                        let texted = text_run(entry.text, outs, chosen.1);
                        lemma_run_list_depth(
                            reg,
                            chain_targets(entry.chain),
                            0,
                            namespace_of(found.0),
                            outs,
                            texted.1,
                            depth + 1,
                        );
                    }
                },
                Table::Compound { tables, .. } => {
                    lemma_run_list_depth(reg, sub_targets(tables@), 0, namespace_of(found.0), outs, pos, depth + 1);
                },
            },
        }
    }
}

proof fn lemma_run_list_depth(
    reg: Seq<(Seq<char>, Table)>,
    targets: Seq<(Seq<char>, Seq<u32>)>,
    i: nat,
    ns: Seq<char>,
    outs: Seq<DiceOutcome>,
    pos: nat,
    depth: nat,
)
    ensures
        run_list(reg, targets, i, ns, outs, pos, depth).0 matches Ok(kids) ==> (forall|k: int|
            0 <= k < kids.len() ==> depth <= MAX_CHAIN_DEPTH && within_depth(
                #[trigger] kids[k],
                (MAX_CHAIN_DEPTH + 1 - depth) as nat,
            )),
    decreases budget(depth), targets.len() - i,
{
    if i < targets.len() {
        let first = run_table(reg, targets[i as int].0, ns, outs, pos, depth, targets[i as int].1, Lookup::Dice { modifier: None });
        lemma_run_table_depth(reg, targets[i as int].0, ns, outs, pos, depth, targets[i as int].1, Lookup::Dice { modifier: None });
        if let Ok(v) = first.0 {
            lemma_run_list_depth(reg, targets, i + 1, ns, outs, first.1, depth);
            let rest = run_list(reg, targets, i + 1, ns, outs, first.1, depth);
            if let Ok(more) = rest.0 {
                let kids = seq![v] + more;
                assert forall|k: int| 0 <= k < kids.len() implies depth <= MAX_CHAIN_DEPTH && within_depth(
                    #[trigger] kids[k],
                    (MAX_CHAIN_DEPTH + 1 - depth) as nat,
                ) by {
                    if k > 0 {
                        assert(kids[k] == more[k - 1]);
                    }
                }
            }
        }
    }
}

/// Chains never nest past the depth limit: a finished roll is at most
/// `MAX_CHAIN_DEPTH + 1` levels deep (deeper chains fail as
/// `ChainDepthExceeded`).
pub proof fn lemma_roll_depth_bounded(
    reg: Seq<(Seq<char>, Table)>,
    table_id: Seq<char>,
    how: Lookup,
    outcomes: Seq<DiceOutcome>,
)
    ensures
        replay(reg, table_id, how, outcomes).0 matches Ok(r) ==> within_depth(r, (MAX_CHAIN_DEPTH + 1) as nat),
{
    lemma_run_table_depth(reg, table_id, Seq::empty(), outcomes, 0, 0, Seq::empty(), how);
}

/// Where the dice of target `i + k` start to be read, when `targets[i..]`
/// are rolled one after another from `pos`.
pub open spec fn kid_start(
    reg: Seq<(Seq<char>, Table)>,
    targets: Seq<(Seq<char>, Seq<u32>)>,
    i: nat,
    ns: Seq<char>,
    outs: Seq<DiceOutcome>,
    pos: nat,
    depth: nat,
    k: nat,
) -> nat
    decreases k,
{
    if k == 0 || i >= targets.len() {
        pos
    } else {
        kid_start(
            reg,
            targets,
            i + 1,
            ns,
            outs,
            run_table(
                reg,
                targets[i as int].0,
                ns,
                outs,
                pos,
                depth,
                targets[i as int].1,
                Lookup::Dice { modifier: None },
            ).1,
            depth,
            (k - 1) as nat,
        )
    }
}

proof fn lemma_run_list_plain(
    reg: Seq<(Seq<char>, Table)>,
    targets: Seq<(Seq<char>, Seq<u32>)>,
    i: nat,
    ns: Seq<char>,
    outs: Seq<DiceOutcome>,
    pos: nat,
    depth: nat,
    k: nat,
)
    requires
        i <= targets.len(),
        run_list(reg, targets, i, ns, outs, pos, depth).0 matches Ok(kids) && k < kids.len(),
    ensures
        run_table(
            reg,
            targets[i + k as int].0,
            ns,
            outs,
            kid_start(reg, targets, i, ns, outs, pos, depth, k),
            depth,
            targets[i + k as int].1,
            Lookup::Dice { modifier: None },
        ).0 == Ok::<RollView, Stop>(run_list(reg, targets, i, ns, outs, pos, depth).0->Ok_0[k as int]),
    decreases k,
{
    let first = run_table(reg, targets[i as int].0, ns, outs, pos, depth, targets[i as int].1, Lookup::Dice { modifier: None });
    let rest = run_list(reg, targets, i + 1, ns, outs, first.1, depth);
    if k > 0 {
        assert(run_list(reg, targets, i, ns, outs, pos, depth).0->Ok_0 == seq![first.0->Ok_0] + rest.0->Ok_0);
        lemma_run_list_plain(reg, targets, i + 1, ns, outs, first.1, depth, (k - 1) as nat);
        assert((i + 1) + (k - 1) == i + k as int);
    }
}

/// The tables that the roll `r` of `t` went on to: the sub-tables of a
/// compound table, or what the entry covering a simple table's roll
/// chains to.
pub open spec fn child_targets(t: Table, r: RollView) -> Seq<(Seq<char>, Seq<u32>)> {
    match t {
        Table::Compound { tables, .. } => sub_targets(tables@),
        Table::Simple { results, .. } => chain_targets(
            results@[first_covering(results@, r.roll->0 as int)->0].chain,
        ),
    }
}

/// Only the top-level roll takes the caller's modifier or value: every
/// table it chains to (or, for a compound table, every sub-table) is
/// rolled plainly, with its own dice and no modifier, from the namespace
/// of the table rolled, one level down, each from where the one before
/// it stopped reading dice.
pub proof fn lemma_children_rolled_plainly(
    reg: Seq<(Seq<char>, Table)>,
    table_id: Seq<char>,
    t: Table,
    how: Lookup,
    outcomes: Seq<DiceOutcome>,
    k: nat,
)
    requires
        lookup(reg, table_id) == Some(t),
        replay(reg, table_id, how, outcomes).0 matches Ok(r) && k < r.children.len(),
    ensures
        exists|start: nat|
            #[trigger] run_table(
                reg,
                child_targets(t, replay(reg, table_id, how, outcomes).0->Ok_0)[k as int].0,
                namespace_of(table_id),
                outcomes,
                start,
                1,
                child_targets(t, replay(reg, table_id, how, outcomes).0->Ok_0)[k as int].1,
                Lookup::Dice { modifier: None },
            ).0 == Ok::<RollView, Stop>(replay(reg, table_id, how, outcomes).0->Ok_0.children[k as int]),
{
    lemma_roll_shape(reg, table_id, t, how, outcomes);
    let r = replay(reg, table_id, how, outcomes).0->Ok_0;
    let ns = namespace_of(table_id);
    match t {
        Table::Compound { tables, .. } => {
            let targets = sub_targets(tables@);
            lemma_run_list_plain(reg, targets, 0, ns, outcomes, 0, 1, k);
            let start = kid_start(reg, targets, 0, ns, outcomes, 0, 1, k);

            assert(run_table(reg, targets[k as int].0, ns, outcomes, start, 1, targets[k as int].1, Lookup::Dice { modifier: None }).0
                == Ok::<RollView, Stop>(r.children[k as int]));
            assert(exists|start: nat|
                #[trigger] run_table(
                    reg,
                    child_targets(t, r)[k as int].0,
                    namespace_of(table_id),
                    outcomes,
                    start,
                    1,
                    child_targets(t, r)[k as int].1,
                    Lookup::Dice { modifier: None },
                ).0 == Ok::<RollView, Stop>(r.children[k as int]));
        },
        Table::Simple { name, roll, results, modifier_range, .. } => {
            let chosen = choose_spec(name@, roll@, results@, modifier_range, Seq::empty(), outcomes, 0, how);
            if let Lookup::Dice { modifier } = how {
                lemma_attempt_entry(name@, roll@, results@, modifier_range, modifier, Seq::empty(), outcomes, 0, 0);
            }
            let pick = chosen.0->Ok_0;
            let entry = results@[pick.1];
            let texted = text_run(entry.text, outcomes, chosen.1);
            let targets = chain_targets(entry.chain);
            assert(first_covering(results@, pick.0 as int) == Some(pick.1));
            assert(r.roll == Some(pick.0));
            lemma_run_list_plain(reg, targets, 0, ns, outcomes, texted.1, 1, k);
            let start = kid_start(reg, targets, 0, ns, outcomes, texted.1, 1, k);

            assert(run_table(reg, targets[k as int].0, ns, outcomes, start, 1, targets[k as int].1, Lookup::Dice { modifier: None }).0
                == Ok::<RollView, Stop>(r.children[k as int]));
            assert(exists|start: nat|
                #[trigger] run_table(
                    reg,
                    child_targets(t, r)[k as int].0,
                    namespace_of(table_id),
                    outcomes,
                    start,
                    1,
                    child_targets(t, r)[k as int].1,
                    Lookup::Dice { modifier: None },
                ).0 == Ok::<RollView, Stop>(r.children[k as int]));
        },
    }
}

} // verus!
