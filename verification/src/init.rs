//! Table skeletons: YAML templates from a dice expression, and dice
//! expressions for a wanted number of entries.

use vstd::prelude::*;
use crate::dice::{
    as_ints, dice_range, dice_range_defined, digit_dice_fits, digit_dice_params, digit_dice_values,
    digit_outcomes, sort_ints, spec_dice_range, spec_digit_dice_params, DiceParse,
};
use crate::error::{Error, ValidationError};
use crate::text::{decimal, nat_digits, push_str, push_u64, str_equal};

verus! {

/// `lo, lo + 1, ..., hi` (empty when `hi < lo`).
pub open spec fn int_range(lo: int, hi: int) -> Seq<int>
    decreases hi - lo + 1,
{
    if hi < lo {
        Seq::empty()
    } else {
        int_range(lo, hi - 1).push(hi)
    }
}

/// The lines of one template entry for value `v`.
pub open spec fn template_entry(v: int) -> Seq<char> {
    "  - min: "@ + decimal(v) + "\n"@ + "    max: "@ + decimal(v) + "\n"@ + "    text: \"\"\n"@
}

/// The entries of a template, one per value.
pub open spec fn template_entries(values: Seq<int>) -> Seq<char>
    decreases values.len(),
{
    if values.len() == 0 {
        Seq::empty()
    } else {
        template_entries(values.drop_last()) + template_entry(values.last())
    }
}

/// A table skeleton with one empty-text entry per value.
pub open spec fn template_text(roll: Seq<char>, name: Seq<char>, values: Seq<int>) -> Seq<char> {
    "name: "@ + name + "\n"@ + "type: simple\n"@ + "tags: []\n"@ + "roll: "@ + roll + "\n"@
        + "results:\n"@ + template_entries(values)
}

/// What [`generate_template`] returns for a parsed expression.
pub open spec fn template_outcome(
    roll: Seq<char>,
    name: Seq<char>,
    parsed: DiceParse,
    r: Result<String, Error>,
) -> bool {
    match parsed {
        Err(msg) => r matches Err(Error::Dice(m)) && m@ == msg@,
        Ok(shape) => match spec_digit_dice_params(shape) {
            Some((sides, count)) => r matches Ok(t) && t@ == template_text(
                roll,
                name,
                sort_ints(digit_outcomes(sides as nat, count as nat, 0)),
            ),
            None => match spec_dice_range(shape) {
                Ok((lo, hi)) => r matches Ok(t) && t@ == template_text(
                    roll,
                    name,
                    int_range(lo as int, hi as int),
                ),
                Err(why) => r matches Err(
                    Error::Validation(ValidationError::UnsupportedDiceExpression { expr, reason }),
                ) && expr@ == roll && reason@ == why,
            },
        },
    }
}

fn push_entry(out: &mut String, v: u32)
    ensures
        final(out)@ == old(out)@ + template_entry(v as int),
{
    push_str(out, "  - min: ");
    push_u64(out, v as u64);
    push_str(out, "\n");
    push_str(out, "    max: ");
    push_u64(out, v as u64);
    push_str(out, "\n");
    push_str(out, "    text: \"\"\n");
    assert(final(out)@ =~= old(out)@ + template_entry(v as int));
}

fn template_header(roll_expr: &str, name: &str) -> (out: String)
    ensures
        out@ == template_text(roll_expr@, name@, Seq::empty()),
{
    let mut out = String::new();
    push_str(&mut out, "name: ");
    push_str(&mut out, name);
    push_str(&mut out, "\n");
    push_str(&mut out, "type: simple\n");
    push_str(&mut out, "tags: []\n");
    push_str(&mut out, "roll: ");
    push_str(&mut out, roll_expr);
    push_str(&mut out, "\n");
    push_str(&mut out, "results:\n");
    assert(out@ =~= template_text(roll_expr@, name@, Seq::empty()));
    out
}

proof fn lemma_template_push(roll: Seq<char>, name: Seq<char>, values: Seq<int>, v: int)
    ensures
        template_text(roll, name, values.push(v)) == template_text(roll, name, values)
            + template_entry(v),
{
    assert(values.push(v).drop_last() =~= values);
    assert(template_text(roll, name, values.push(v)) =~= template_text(roll, name, values)
        + template_entry(v));
}

/// Generate a table YAML skeleton from a dice expression: one result
/// entry with empty text per possible value. Digit dice (D66, D666, ...)
/// yield only their valid outcomes, not the full contiguous range.
pub fn generate_template(roll_expr: &str, name: &str, parsed: &DiceParse) -> (r: Result<
    String,
    Error,
>)
    requires
        *parsed matches Ok(shape) ==> dice_range_defined(shape) && (spec_digit_dice_params(shape) matches Some(
            (sides, count),
        ) ==> digit_dice_fits(sides, count)),
    ensures
        template_outcome(roll_expr@, name@, *parsed, r),
{
    let shape = match parsed {
        Ok(s) => s,
        Err(msg) => {
            return Err(Error::Dice(msg.clone()));
        },
    };
    let mut out = template_header(roll_expr, name);
    match digit_dice_params(shape) {
        Some((sides, count)) => {
            let values = digit_dice_values(sides, count);
            let mut i: usize = 0;
            while i < values.len()
                invariant
                    i <= values@.len(),
                    out@ == template_text(roll_expr@, name@, as_ints(values@).take(i as int)),
                decreases values@.len() - i,
            {
                proof {
                    lemma_template_push(roll_expr@, name@, as_ints(values@).take(i as int), values@[i as int] as int);
                    assert(as_ints(values@).take(i as int).push(values@[i as int] as int) =~= as_ints(values@).take(i + 1));
                }
                push_entry(&mut out, values[i]);
                i = i + 1;
            }
            assert(as_ints(values@).take(values@.len() as int) =~= as_ints(values@));
            Ok(out)
        },
        None => {
            let (lo, hi) = dice_range(roll_expr, parsed)?;
            let mut v: u64 = lo as u64;
            assert(int_range(lo as int, lo - 1) =~= Seq::<int>::empty());
            while v <= hi as u64
                invariant
                    lo <= v,
                    v <= hi as u64 + 1 || hi < lo,
                    hi < lo ==> v == lo,
                    out@ == template_text(roll_expr@, name@, int_range(lo as int, v - 1)),
                decreases hi as u64 + 1 - v,
            {
                proof {
                    lemma_template_push(roll_expr@, name@, int_range(lo as int, v - 1), v as int);
                }
                push_entry(&mut out, v as u32);
                v = v + 1;
            }
            proof {
                if hi < lo {
                    assert(int_range(lo as int, hi as int) =~= Seq::<int>::empty());
                    assert(int_range(lo as int, v - 1) =~= Seq::<int>::empty());
                }
            }
            Ok(out)
        },
    }
}

/// The shape of the wanted outcome distribution.
#[derive(Debug, Clone, Copy, PartialEq, Eq, Structural)]
pub enum Distribution {
    Flat,
    Bell,
}

/// A dice expression close to a wanted entry count.
#[derive(Debug, Clone, PartialEq)]
pub struct Suggestion {
    pub expression: String,
    pub num_dice: u32,
    pub entries: u32,
    pub range_min: u32,
    pub range_max: u32,
}

proof fn lemma_int_range(lo: int, hi: int)
    ensures
        int_range(lo, hi).len() == if hi < lo { 0 } else { hi - lo + 1 },
        forall|i: int| 0 <= i < int_range(lo, hi).len() ==> #[trigger] int_range(lo, hi)[i] == lo + i,
    decreases hi - lo + 1,
{
    if hi >= lo {
        lemma_int_range(lo, hi - 1);
        assert forall|i: int| 0 <= i < int_range(lo, hi).len() implies #[trigger] int_range(lo, hi)[i] == lo + i by {
            if i < int_range(lo, hi - 1).len() {
                assert(int_range(lo, hi)[i] == int_range(lo, hi - 1)[i]);
            }
        }
    }
}

proof fn lemma_template_entries_flatten(values: Seq<int>)
    ensures
        template_entries(values) == Seq::new(values.len(), |i: int| template_entry(values[i])).flatten(),
    decreases values.len(),
{
    let all = Seq::new(values.len(), |i: int| template_entry(values[i]));
    if values.len() == 0 {
        assert(all =~= Seq::<Seq<char>>::empty());
    } else {
        let init = values.drop_last();
        let fewer = Seq::new(init.len(), |i: int| template_entry(init[i]));
        lemma_template_entries_flatten(init);
        assert(all =~= fewer.push(template_entry(values.last())));
        fewer.lemma_flatten_push(template_entry(values.last()));
    }
}

/// A law of table templates: a template for the values `lo..=hi` has,
/// after its header, one entry for each of those values, in ascending
/// order and none missing: `hi - lo + 1` entries, the `i`-th for the
/// value `lo + i`.
pub proof fn lemma_template_one_entry_per_value(roll: Seq<char>, name: Seq<char>, lo: int, hi: int)
    requires
        lo <= hi,
    ensures
        ({
            let entries = Seq::new((hi - lo + 1) as nat, |i: int| template_entry(lo + i)).flatten();
            let t = template_text(roll, name, int_range(lo, hi));
            &&& t.len() >= entries.len()
            &&& t.skip(t.len() - entries.len()) == entries
        }),
{
    lemma_int_range(lo, hi);
    let values = int_range(lo, hi);
    lemma_template_entries_flatten(values);
    assert(Seq::new(values.len(), |i: int| template_entry(values[i])) =~= Seq::new(
        (hi - lo + 1) as nat,
        |i: int| template_entry(lo + i),
    ));
    let t = template_text(roll, name, values);
    let entries = template_entries(values);
    assert(t.skip(t.len() - entries.len()) =~= entries);
}

/// An exact dice expression, or the nearest candidates.
#[derive(Debug, Clone, PartialEq)]
pub enum DistributionResult {
    Exact(String),
    Suggestions(Vec<Suggestion>),
}

/// The expression `{n}d{sides}`.
pub open spec fn dice_expr(n: nat, sides: nat) -> Seq<char> {
    nat_digits(n) + "d"@ + nat_digits(sides)
}

/// `n` dice give exactly `entries` distinct totals: `n * (sides - 1) + 1`
/// with at least two sides.
pub open spec fn bell_exact(entries: nat, n: nat) -> bool {
    (entries - 1) % (n as int) == 0 && (entries - 1) / (n as int) + 1 >= 2
}

/// The exact bell-curve side count for `n` dice.
pub open spec fn bell_sides(entries: nat, n: nat) -> nat {
    ((entries - 1) / (n as int) + 1) as nat
}

/// `s` describes `n` dice of `sides` sides.
pub open spec fn suggests(s: Suggestion, n: nat, sides: nat) -> bool {
    &&& s.expression@ == dice_expr(n, sides)
    &&& s.num_dice == n
    &&& s.entries == n * (sides - 1) + 1
    &&& s.range_min == n
    &&& s.range_max == n * sides
}

/// The candidates for `n` dice: the side counts just below (when at least
/// two) and just above the wanted count.
pub open spec fn suggestions_for(entries: nat, n: nat, s: Seq<Suggestion>) -> bool {
    let floor = bell_sides(entries, n);
    if floor >= 2 {
        s.len() == 2 && suggests(s[0], n, floor) && suggests(s[1], n, floor + 1)
    } else {
        s.len() == 1 && suggests(s[0], n, floor + 1)
    }
}

/// What [`calculate_distribution`] returns.
pub open spec fn distribution_outcome(entries: nat, dist: Distribution, r: DistributionResult) -> bool {
    match dist {
        Distribution::Flat => r matches DistributionResult::Exact(e) && e@ == dice_expr(1, entries),
        Distribution::Bell => if bell_exact(entries, 2) {
            r matches DistributionResult::Exact(e) && e@ == dice_expr(2, bell_sides(entries, 2))
        } else if bell_exact(entries, 3) {
            r matches DistributionResult::Exact(e) && e@ == dice_expr(3, bell_sides(entries, 3))
        } else {
            r matches DistributionResult::Suggestions(v) && exists|k: int|
                0 <= k <= v@.len() && suggestions_for(entries, 2, v@.take(k)) && suggestions_for(
                    entries,
                    3,
                    #[trigger] v@.skip(k),
                )
        },
    }
}

fn expr_string(n: u32, sides: u32) -> (s: String)
    ensures
        s@ == dice_expr(n as nat, sides as nat),
{
    let mut s = String::new();
    push_u64(&mut s, n as u64);
    push_str(&mut s, "d");
    push_u64(&mut s, sides as u64);
    assert(s@ =~= dice_expr(n as nat, sides as nat));
    s
}

fn suggestion(n: u32, sides: u32) -> (s: Suggestion)
    requires
        2 <= n <= 3,
        1 <= sides,
        n * sides <= u32::MAX,
    ensures
        suggests(s, n as nat, sides as nat),
{
    assert(n * (sides - 1) + 1 <= n * sides) by (nonlinear_arith)
        requires
            2 <= n,
            1 <= sides,
    ;
    Suggestion {
        expression: expr_string(n, sides),
        num_dice: n,
        entries: n * (sides - 1) + 1,
        range_min: n,
        range_max: n * sides,
    }
}

fn suggestions_for_dice(entries: u32, n: u32) -> (v: Vec<Suggestion>)
    requires
        2 <= n <= 3,
        1 <= entries,
        n * ((entries - 1) / (n as int) + 2) <= u32::MAX,
    ensures
        suggestions_for(entries as nat, n as nat, v@),
{
    let numerator = entries - 1;
    let y_floor = numerator / n + 1;
    assert(n * (y_floor + 1) <= u32::MAX);
    assert(y_floor + 1 <= n * (y_floor + 1)) by (nonlinear_arith)
        requires
            2 <= n,
            y_floor >= 0,
    ;
    let y_ceil = y_floor + 1;
    assert(n * y_ceil <= u32::MAX);
    assert(n * y_floor <= n * y_ceil) by (nonlinear_arith)
        requires
            y_floor <= y_ceil,
            n >= 0,
    ;
    let mut v: Vec<Suggestion> = Vec::new();
    if y_floor >= 2 {
        v.push(suggestion(n, y_floor));
    }
    v.push(suggestion(n, y_ceil));
    v
}

/// Where no exact bell curve of fewer dice was found, the suggestions for
/// `n` dice stay within `u32`: only `u32::MAX - 1` entries would overflow.
proof fn lemma_bell_suggestions_fit(entries: int, n: int)
    requires
        1 <= entries <= u32::MAX,
        entries != u32::MAX - 1,
        n == 2 || n == 3,
        !((entries - 1) % 2 == 0 && (entries - 1) / 2 + 1 >= 2),
        n == 3 ==> !((entries - 1) % 3 == 0 && (entries - 1) / 3 + 1 >= 2),
    ensures
        n * ((entries - 1) / n + 2) <= u32::MAX,
{
    let m = entries - 1;
    vstd::arithmetic::div_mod::lemma_fundamental_div_mod(m, 2);
    vstd::arithmetic::div_mod::lemma_fundamental_div_mod(m, 3);
    if m > 0 {
        assert(m % 2 == 1);
        assert(entries <= u32::MAX - 3);
    }
}

/// A dice expression for `entries` outcomes: `1dN` for a flat
/// distribution; for a bell curve `XdY` with X = 2 or 3 dice, whose
/// `X * (Y - 1) + 1` distinct totals match exactly, or else the nearest
/// candidates for each number of dice.
pub fn calculate_distribution(entries: u32, dist: Distribution) -> (r: DistributionResult)
    requires
        dist == Distribution::Bell ==> 1 <= entries && entries != u32::MAX - 1,
    ensures
        distribution_outcome(entries as nat, dist, r),
{
    match dist {
        Distribution::Flat => {
            let e = expr_string(1, entries);
            assert(e@ == dice_expr(1, entries as nat));
            let r = DistributionResult::Exact(e);
            assert(dist == Distribution::Flat);
            r
        },
        Distribution::Bell => {
            let numerator = entries - 1;
            if numerator % 2 == 0 && numerator / 2 + 1 >= 2 {
                return DistributionResult::Exact(expr_string(2, numerator / 2 + 1));
            }
            proof {
                lemma_bell_suggestions_fit(entries as int, 2);
            }
            let first = suggestions_for_dice(entries, 2);
            if numerator % 3 == 0 && numerator / 3 + 1 >= 2 {
                return DistributionResult::Exact(expr_string(3, numerator / 3 + 1));
            }
            let mut all = first;
            proof {
                lemma_bell_suggestions_fit(entries as int, 3);
            }
            let mut second = suggestions_for_dice(entries, 3);
            let ghost a = all@;
            let ghost b = second@;
            all.append(&mut second);
            assert(all@.take(a.len() as int) =~= a);
            assert(all@.skip(a.len() as int) =~= b);
            let ghost k = a.len() as int;
            let r = DistributionResult::Suggestions(all);
            assert(r matches DistributionResult::Suggestions(v) && 0 <= k <= v@.len()
                && suggestions_for(entries as nat, 2, v@.take(k))
                && suggestions_for(entries as nat, 3, v@.skip(k)));
            r
        },
    }
}

/// An exact bell curve of `n` dice gives exactly the wanted number of
/// distinct totals: `n * (sides - 1) + 1 == entries`.
pub proof fn lemma_bell_exact_totals(entries: nat, n: nat)
    requires
        entries >= 1,
        n >= 1,
        bell_exact(entries, n),
    ensures
        n * (bell_sides(entries, n) - 1) + 1 == entries,
{
    vstd::arithmetic::div_mod::lemma_fundamental_div_mod(entries - 1, n as int);
}

/// How the roll expression of a new table was settled: given, computed,
/// close candidates only, or refused with a reason.
#[derive(Debug, Clone, PartialEq)]
pub enum RollChoice {
    Expression(String),
    NoExactMatch(Vec<Suggestion>),
    Refused(String),
}

/// The distribution named `name`, if it is one of `flat` and `bell`.
pub open spec fn named_distribution(name: Seq<char>) -> Option<Distribution> {
    if name == "flat"@ {
        Some(Distribution::Flat)
    } else if name == "bell"@ {
        Some(Distribution::Bell)
    } else {
        None
    }
}

/// The reason given for an unknown distribution name.
pub open spec fn unknown_distribution_text(name: Seq<char>) -> Seq<char> {
    "unknown distribution type: '"@ + name + "' (expected 'flat' or 'bell')"@
}

/// What [`choose_roll_expression`] settles on.
pub open spec fn roll_choice(
    roll: Option<Seq<char>>,
    entries: Option<u32>,
    distribution: Option<Seq<char>>,
    r: RollChoice,
) -> bool {
    match roll {
        Some(expr) => r matches RollChoice::Expression(e) && e@ == expr,
        None => match entries {
            None => r matches RollChoice::Refused(m)
                && m@ == "specify --roll <expression> or --entries <count> --distribution <type>"@,
            Some(count) => match named_distribution(distribution->0) {
                None => r matches RollChoice::Refused(m) && m@ == unknown_distribution_text(
                    distribution->0,
                ),
                Some(dist) => if count == 0 {
                    r matches RollChoice::Refused(m) && m@ == "entries must be at least 1"@
                } else if dist == Distribution::Bell && count < 3 {
                    r matches RollChoice::Refused(m) && m@
                        == "bell curves require at least 3 entries (minimum is 2d2)"@
                } else {
                    match r {
                        RollChoice::Expression(e) => distribution_outcome(
                            count as nat,
                            dist,
                            DistributionResult::Exact(e),
                        ),
                        RollChoice::NoExactMatch(v) => distribution_outcome(
                            count as nat,
                            dist,
                            DistributionResult::Suggestions(v),
                        ),
                        RollChoice::Refused(_) => false,
                    }
                },
            },
        },
    }
}

/// Settles the roll expression of a new table: an explicit expression
/// wins; otherwise an entry count and a distribution name (`flat` or
/// `bell`) give one through [`calculate_distribution`]. A count of zero,
/// a bell curve under three entries and an unknown name are refused.
pub fn choose_roll_expression(
    roll: Option<String>,
    entries: Option<u32>,
    distribution: Option<String>,
) -> (r: RollChoice)
    requires
        roll is None && entries is Some ==> distribution is Some,
        roll is None && entries is Some && named_distribution(distribution->0@) == Some(
            Distribution::Bell,
        ) ==> entries->0 != u32::MAX - 1,
    ensures
        roll_choice(
            match roll {
                Some(s) => Some(s@),
                None => None,
            },
            entries,
            match distribution {
                Some(s) => Some(s@),
                None => None,
            },
            r,
        ),
{
    match roll {
        Some(expr) => RollChoice::Expression(expr),
        None => match entries {
            None => {
                let m = "specify --roll <expression> or --entries <count> --distribution <type>";
                RollChoice::Refused(m.to_string())
            },
            Some(count) => {
                let name = match distribution {
                    Some(d) => d,
                    None => String::new(),
                };
                proof {
                    reveal_strlit("flat");
                    reveal_strlit("bell");
                }
                let dist = if str_equal(name.as_str(), "flat") {
                    Distribution::Flat
                } else if str_equal(name.as_str(), "bell") {
                    Distribution::Bell
                } else {
                    let mut m = String::new();
                    push_str(&mut m, "unknown distribution type: '");
                    push_str(&mut m, name.as_str());
                    push_str(&mut m, "' (expected 'flat' or 'bell')");
                    return RollChoice::Refused(m);
                };
                if count == 0 {
                    return RollChoice::Refused("entries must be at least 1".to_string());
                }
                if dist == Distribution::Bell && count < 3 {
                    let m = "bell curves require at least 3 entries (minimum is 2d2)";
                    return RollChoice::Refused(m.to_string());
                }
                match calculate_distribution(count, dist) {
                    DistributionResult::Exact(e) => RollChoice::Expression(e),
                    DistributionResult::Suggestions(v) => RollChoice::NoExactMatch(v),
                }
            },
        },
    }
}

} // verus!
