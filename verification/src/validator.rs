//! Validation of namespaces, result entries, tables and cross-references.

use vstd::prelude::*;
use crate::error::{error_text, Error, ValidationError};
use crate::models::{ChainRef, ModifierRange, ResultEntry, Table};
use crate::registry::{spec_resolve, Registry};
use crate::text::{chars_of, push_str, push_i64, string_from_chars, decimal};
use crate::dice::{
    as_ints, digit_dice_fits, digit_dice_values, digit_outcomes, sort_ints, dice_range,
    dice_range_defined, digit_dice_params, spec_dice_range, spec_digit_dice_params, DiceFacts,
    DiceParse, dice_range_fits, digit_dice_fit,
};

verus! {

/// The widest envelope (max - min) a simple table may cover.
pub const MAX_ENVELOPE_WIDTH: i64 = 100_000;

/// Sample count of the seeded simulation that derives an envelope.
pub const SIMULATION_ITERATIONS: usize = 100_000;

/// Seed of the seeded simulation that derives an envelope.
pub const SIMULATION_SEED: u64 = 42;

/// The segments of a namespace, split at every dot (`"a.b"` gives
/// `["a", "b"]`, `""` gives `[""]`, `"a..b"` gives `["a", "", "b"]`).
pub open spec fn split_dot(s: Seq<char>) -> Seq<Seq<char>>
    decreases s.len(),
{
    if s.len() == 0 {
        seq![Seq::<char>::empty()]
    } else {
        let init = split_dot(s.drop_last());
        if s.last() == '.' {
            init.push(Seq::<char>::empty())
        } else {
            init.update(init.len() - 1, init.last().push(s.last()))
        }
    }
}

pub open spec fn is_lower(c: char) -> bool {
    'a' <= c && c <= 'z'
}

pub open spec fn is_digit(c: char) -> bool {
    '0' <= c && c <= '9'
}

/// A namespace segment matches `^[a-z][a-z0-9_-]*$`.
pub open spec fn segment_ok(s: Seq<char>) -> bool {
    &&& s.len() >= 1
    &&& is_lower(s[0])
    &&& forall|i: int| 1 <= i < s.len() ==> is_lower(#[trigger] s[i]) || is_digit(s[i]) || s[i] == '_' || s[i] == '-'
}

/// Why a segment is refused, if it is.
pub open spec fn segment_problem(s: Seq<char>) -> Option<Seq<char>> {
    if s.len() == 0 {
        Some("empty segment (double dot)"@)
    } else if !segment_ok(s) {
        Some("segment '"@ + s + "' must match [a-z][a-z0-9_-]*"@)
    } else {
        None
    }
}

/// The problem of the first refused segment, in order.
pub open spec fn first_segment_problem(segs: Seq<Seq<char>>) -> Option<Seq<char>>
    decreases segs.len(),
{
    if segs.len() == 0 {
        None
    } else if segment_problem(segs[0]) is Some {
        segment_problem(segs[0])
    } else {
        first_segment_problem(segs.drop_first())
    }
}

/// Why a namespace is refused, if it is.
pub open spec fn namespace_problem(ns: Seq<char>) -> Option<Seq<char>> {
    if ns.len() == 0 {
        Some("namespace cannot be empty"@)
    } else {
        first_segment_problem(split_dot(ns))
    }
}

/// The pattern every namespace segment must match.
pub const NAMESPACE_SEGMENT_PATTERN: &'static str = "^[a-z][a-z0-9_-]*$";

/// Whether `segment` matches the regular expression `pattern`, which is
/// [`NAMESPACE_SEGMENT_PATTERN`]: the regex crate's `Regex::new` builds it
/// (the pattern is valid, so the build does not fail) and
/// `Regex::is_match` tests the segment. The contract claims the answer is
/// `segment_ok`: a lowercase ASCII letter, then only lowercase ASCII
/// letters, digits, `_` and `-` (`$` ends the haystack).
#[verifier::external_body]
fn segment_matches(pattern: &str, segment: &str) -> (r: bool)
    requires
        pattern@ == NAMESPACE_SEGMENT_PATTERN@,
    ensures
        r == segment_ok(segment@),
{
    regex::Regex::new(pattern).unwrap().is_match(segment)
}

fn split_namespace(ns: &[char]) -> (r: Vec<Vec<char>>)
    ensures
        r@.len() == split_dot(ns@).len(),
        forall|i: int| 0 <= i < r@.len() ==> #[trigger] r@[i]@ == split_dot(ns@)[i],
{
    let mut segs: Vec<Vec<char>> = Vec::new();
    let mut cur: Vec<char> = Vec::new();
    let mut i: usize = 0;
    assert(ns@.take(0) =~= Seq::<char>::empty());
    while i < ns.len()
        invariant
            i <= ns@.len(),
            segs@.len() + 1 == split_dot(ns@.take(i as int)).len(),
            forall|k: int| 0 <= k < segs@.len() ==> #[trigger] segs@[k]@ == split_dot(ns@.take(i as int))[k],
            cur@ == split_dot(ns@.take(i as int)).last(),
        decreases ns@.len() - i,
    {
        let ghost t = ns@.take(i + 1);
        assert(t.drop_last() =~= ns@.take(i as int));
        assert(t.last() == ns@[i as int]);
        if ns[i] == '.' {
            segs.push(cur);
            cur = Vec::new();
            assert(cur@ =~= Seq::<char>::empty());
        } else {
            cur.push(ns[i]);
        }
        i = i + 1;
    }
    segs.push(cur);
    assert(ns@.take(ns@.len() as int) =~= ns@);
    segs
}

fn check_segment(seg: &Vec<char>) -> (r: Result<(), String>)
    ensures
        match segment_problem(seg@) {
            None => r is Ok,
            Some(p) => r matches Err(m) && m@ == p,
        },
{
    if seg.len() == 0 {
        return Err("empty segment (double dot)".to_owned());
    }
    let text = string_from_chars(seg.as_slice());
    if !segment_matches(NAMESPACE_SEGMENT_PATTERN, text.as_str()) {
        let mut reason = String::new();
        push_str(&mut reason, "segment '");
        push_str(&mut reason, text.as_str());
        push_str(&mut reason, "' must match [a-z][a-z0-9_-]*");
        return Err(reason);
    }
    Ok(())
}

/// Check a namespace: non-empty, and every dot-separated segment
/// matching `[a-z][a-z0-9_-]*`. The first refused segment is reported.
pub fn validate_namespace(namespace: &str) -> (r: Result<(), ValidationError>)
    ensures
        match namespace_problem(namespace@) {
            None => r is Ok,
            Some(p) => r matches Err(ValidationError::InvalidNamespace { namespace: n, reason })
                && n@ == namespace@ && reason@ == p,
        },
{
    let ns = chars_of(namespace);
    if ns.len() == 0 {
        return Err(
            ValidationError::InvalidNamespace {
                namespace: namespace.to_owned(),
                reason: "namespace cannot be empty".to_owned(),
            },
        );
    }
    let segs = split_namespace(ns.as_slice());
    let ghost all = split_dot(ns@);
    let mut i: usize = 0;
    assert(all.skip(0) =~= all);
    while i < segs.len()
        invariant
            ns@ == namespace@,
            ns@.len() > 0,
            all == split_dot(ns@),
            i <= segs@.len(),
            segs@.len() == all.len(),
            forall|k: int| 0 <= k < segs@.len() ==> #[trigger] segs@[k]@ == all[k],
            first_segment_problem(all) == first_segment_problem(all.skip(i as int)),
        decreases segs@.len() - i,
    {
        assert(all.skip(i as int)[0] == all[i as int]);
        assert(segs@[i as int]@ == all[i as int]);
        match check_segment(&segs[i]) {
            Err(reason) => {
                let ghost rest = all.skip(i as int);
                assert(rest.len() > 0);
                assert(rest[0] == all[i as int]);
                assert(segment_problem(rest[0]) is Some);
                assert(first_segment_problem(rest) == segment_problem(rest[0]));
                assert(ns@.len() > 0);
                assert(namespace_problem(ns@) == segment_problem(all[i as int]));
                return Err(
                    ValidationError::InvalidNamespace { namespace: namespace.to_owned(), reason },
                );
            },
            Ok(()) => {},
        }
        assert(all.skip(i as int).drop_first() =~= all.skip(i + 1));
        i = i + 1;
    }
    assert(all.skip(i as int) =~= Seq::<Seq<char>>::empty());
    Ok(())
}

/// Check that an entry's range is not reversed.
pub fn validate_result_entry(entry: &ResultEntry, table_name: &str) -> (r: Result<(), ValidationError>)
    ensures
        entry.max >= entry.min ==> r is Ok,
        entry.max < entry.min ==> (r matches Err(ValidationError::RangeReversed { table, min, max })
            && table@ == table_name@ && min == entry.min && max == entry.max),
{
    if entry.max < entry.min {
        return Err(
            ValidationError::RangeReversed {
                table: table_name.to_owned(),
                min: entry.min,
                max: entry.max,
            },
        );
    }
    Ok(())
}

/// Narrow an envelope `[min, max]` to `i32`, refusing one wider than
/// [`MAX_ENVELOPE_WIDTH`] or with an endpoint outside `i32`; a refusal
/// carries the width `max - min`.
pub fn bounded_envelope(min: i64, max: i64) -> (r: Result<(i32, i32), i64>)
    requires
        min <= max,
        max - min <= i64::MAX,
    ensures
        (max - min > MAX_ENVELOPE_WIDTH || min < i32::MIN || max > i32::MAX) ==> r == Err::<
            (i32, i32),
            i64,
        >((max - min) as i64),
        !(max - min > MAX_ENVELOPE_WIDTH || min < i32::MIN || max > i32::MAX) ==> r == Ok::<
            (i32, i32),
            i64,
        >((min as i32, max as i32)),
{
    let width = max - min;
    if width > MAX_ENVELOPE_WIDTH || min < i32::MIN as i64 || max > i32::MAX as i64 {
        return Err(width);
    }
    Ok((min as i32, max as i32))
}

/// How many entries cover value `v`.
pub open spec fn coverage(results: Seq<ResultEntry>, v: int) -> nat
    decreases results.len(),
{
    if results.len() == 0 {
        0
    } else {
        coverage(results.drop_last(), v) + if results.last().min <= v <= results.last().max {
            1nat
        } else {
            0nat
        }
    }
}

/// The values of `lo..=hi`, ascending, covered exactly `0` times
/// (when `zero`) or more than once (otherwise).
pub open spec fn values_with_coverage(results: Seq<ResultEntry>, lo: int, hi: int, zero: bool) -> Seq<
    i32,
>
    decreases hi - lo + 1,
{
    if hi < lo {
        Seq::empty()
    } else {
        let init = values_with_coverage(results, lo, hi - 1, zero);
        let c = coverage(results, hi);
        if (zero && c == 0) || (!zero && c > 1) {
            init.push(hi as i32)
        } else {
            init
        }
    }
}

/// Index of the first entry reaching outside `[lo, hi]`, if any.
pub open spec fn first_outside(results: Seq<ResultEntry>, lo: int, hi: int) -> Option<int>
    decreases results.len(),
{
    if results.len() == 0 {
        None
    } else {
        match first_outside(results.drop_last(), lo, hi) {
            Some(i) => Some(i),
            None => if results.last().min < lo || results.last().max > hi {
                Some(results.len() - 1)
            } else {
                None
            },
        }
    }
}

/// The outcome of checking that `results` cover `[lo, hi]` exactly once
/// each: the first entry outside the envelope, else the uncovered
/// values, else the values covered more than once.
pub open spec fn envelope_coverage_outcome(
    name: Seq<char>,
    lo: int,
    hi: int,
    results: Seq<ResultEntry>,
    r: Result<(), ValidationError>,
) -> bool {
    match first_outside(results, lo, hi) {
        Some(i) => r matches Err(
            ValidationError::EntryOutOfRange { table, entry_min, entry_max, dice_min, dice_max },
        ) && table@ == name && entry_min == results[i].min && entry_max == results[i].max
            && dice_min == lo && dice_max == hi,
        None => if values_with_coverage(results, lo, hi, true).len() > 0 {
            r matches Err(ValidationError::RangeGap { table, missing }) && table@ == name
                && missing@ == values_with_coverage(results, lo, hi, true)
        } else if values_with_coverage(results, lo, hi, false).len() > 0 {
            r matches Err(ValidationError::RangeOverlap { table, overlapping }) && table@ == name
                && overlapping@ == values_with_coverage(results, lo, hi, false)
        } else {
            r is Ok
        },
    }
}

proof fn lemma_coverage_bounded(results: Seq<ResultEntry>, v: int)
    ensures
        coverage(results, v) <= results.len(),
    decreases results.len(),
{
    if results.len() > 0 {
        lemma_coverage_bounded(results.drop_last(), v);
    }
}

proof fn lemma_first_outside_none(results: Seq<ResultEntry>, lo: int, hi: int)
    requires
        forall|k: int| 0 <= k < results.len() ==> lo <= #[trigger] results[k].min && results[k].max <= hi,
    ensures
        first_outside(results, lo, hi) is None,
    decreases results.len(),
{
    if results.len() > 0 {
        lemma_first_outside_none(results.drop_last(), lo, hi);
    }
}

/// Check that `results` cover `[envelope_min, envelope_max]` exactly:
/// no entry reaches outside it, no value is missed and none is covered
/// twice.
pub fn validate_envelope_coverage(
    name: &str,
    envelope_min: i32,
    envelope_max: i32,
    results: &[ResultEntry],
) -> (r: Result<(), ValidationError>)
    requires
        envelope_min <= envelope_max,
        envelope_max - envelope_min < usize::MAX,
        results@.len() <= u32::MAX,
        forall|k: int| 0 <= k < results@.len() ==> #[trigger] results@[k].min <= results@[k].max,
    ensures
        envelope_coverage_outcome(name@, envelope_min as int, envelope_max as int, results@, r),
{
    let mut i: usize = 0;
    while i < results.len()
        invariant
            i <= results@.len(),
            first_outside(results@.take(i as int), envelope_min as int, envelope_max as int) is None,
        decreases results@.len() - i,
    {
        let ghost t = results@.take(i + 1);
        assert(t.drop_last() =~= results@.take(i as int));
        let entry = &results[i];
        if entry.min < envelope_min || entry.max > envelope_max {
            proof {
                assert(first_outside(t, envelope_min as int, envelope_max as int) == Some(i as int));
                lemma_first_outside_prefix(results@, i + 1, envelope_min as int, envelope_max as int);
            }
            return Err(
                ValidationError::EntryOutOfRange {
                    table: name.to_owned(),
                    entry_min: entry.min,
                    entry_max: entry.max,
                    dice_min: envelope_min,
                    dice_max: envelope_max,
                },
            );
        }
        i = i + 1;
    }
    assert(results@.take(results@.len() as int) =~= results@);
    let ghost lo = envelope_min as int;
    let ghost hi = envelope_max as int;
    let wide = envelope_max as i64 - envelope_min as i64 + 1;
    assert(0 < wide <= usize::MAX);
    let len = wide as usize;
    let mut cov: Vec<u32> = Vec::new();
    let mut k: usize = 0;
    while k < len
        invariant
            k <= len,
            len == hi - lo + 1,
            cov@.len() == k,
            forall|m: int| 0 <= m < k ==> cov@[m] == 0,
        decreases len - k,
    {
        cov.push(0);
        k = k + 1;
    }
    let mut i: usize = 0;
    while i < results.len()
        invariant
            lo == envelope_min,
            hi == envelope_max,
            lo <= hi,
            len == hi - lo + 1,
            i <= results@.len(),
            results@.len() <= u32::MAX,
            cov@.len() == len,
            first_outside(results@, lo, hi) is None,
            forall|k: int| 0 <= k < results@.len() ==> #[trigger] results@[k].min <= results@[k].max,
            forall|m: int| 0 <= m < len ==> cov@[m] == coverage(results@.take(i as int), lo + m),
        decreases results@.len() - i,
    {
        let ghost t = results@.take(i + 1);
        assert(t.drop_last() =~= results@.take(i as int));
        proof {
            lemma_first_outside_all(results@, lo, hi, i as int);
        }
        let entry = &results[i];
        let s0 = entry.min as i64 - envelope_min as i64;
        let e0 = entry.max as i64 - envelope_min as i64;
        assert(0 <= s0 && e0 < len);
        let start = s0 as usize;
        let end = e0 as usize;
        let mut j: usize = start;
        let ghost before = cov@;
        while j <= end && j < len
            invariant
                start <= j,
                j <= end + 1,
                end < len,
                cov@.len() == len,
                lo == envelope_min,
                start == entry.min - lo,
                end == entry.max - lo,
                i < results@.len(),
                results@.len() <= u32::MAX,
                entry == results@[i as int],
                forall|m: int| 0 <= m < len ==> before[m] == coverage(results@.take(i as int), lo + m),
                forall|m: int|
                    0 <= m < len ==> cov@[m] == before[m] + if start <= m < j {
                        1int
                    } else {
                        0int
                    },
            decreases len - j,
        {
            proof {
                lemma_coverage_bounded(results@.take(i as int), lo + j);
            }
            let c = cov[j];
            cov.set(j, c + 1);
            j = j + 1;
        }
        assert forall|m: int| 0 <= m < len implies cov@[m] == coverage(t, lo + m) by {
            assert(t.last() == results@[i as int]);
            assert(coverage(t, lo + m) == coverage(results@.take(i as int), lo + m) + if t.last().min <= lo + m <= t.last().max { 1nat } else { 0nat });
        }
        i = i + 1;
    }
    assert(results@.take(results@.len() as int) =~= results@);
    let mut missing: Vec<i32> = Vec::new();
    let mut overlapping: Vec<i32> = Vec::new();
    let mut k: usize = 0;
    while k < len
        invariant
            lo == envelope_min,
            hi == envelope_max,
            len == hi - lo + 1,
            k <= len,
            cov@.len() == len,
            forall|m: int| 0 <= m < len ==> cov@[m] == coverage(results@, lo + m),
            missing@ == values_with_coverage(results@, lo, lo + k - 1, true),
            overlapping@ == values_with_coverage(results@, lo, lo + k - 1, false),
        decreases len - k,
    {
        let v = (envelope_min as i64 + k as i64) as i32;
        if cov[k] == 0 {
            missing.push(v);
        }
        if cov[k] > 1 {
            overlapping.push(v);
        }
        k = k + 1;
    }
    if missing.len() > 0 {
        return Err(ValidationError::RangeGap { table: name.to_owned(), missing });
    }
    if overlapping.len() > 0 {
        return Err(ValidationError::RangeOverlap { table: name.to_owned(), overlapping });
    }
    Ok(())
}

proof fn lemma_first_outside_prefix(results: Seq<ResultEntry>, n: int, lo: int, hi: int)
    requires
        0 <= n <= results.len(),
        first_outside(results.take(n), lo, hi) is Some,
    ensures
        first_outside(results, lo, hi) == first_outside(results.take(n), lo, hi),
    decreases results.len() - n,
{
    if n < results.len() {
        assert(results.take(n + 1).drop_last() =~= results.take(n));
        lemma_first_outside_prefix(results, n + 1, lo, hi);
    } else {
        assert(results.take(n) =~= results);
    }
}

pub(crate) proof fn lemma_first_outside_all(results: Seq<ResultEntry>, lo: int, hi: int, k: int)
    requires
        first_outside(results, lo, hi) is None,
        0 <= k < results.len(),
    ensures
        lo <= results[k].min && results[k].max <= hi,
    decreases results.len(),
{
    if k < results.len() - 1 {
        lemma_first_outside_all(results.drop_last(), lo, hi, k);
    }
}

/// `r` reports the entry `[entry_min, entry_max]` of table `name` as
/// reaching outside `[dice_min, dice_max]`.
pub open spec fn out_of_range_error(
    r: Result<(), ValidationError>,
    name: Seq<char>,
    entry_min: i32,
    entry_max: i32,
    dice_min: i32,
    dice_max: i32,
) -> bool {
    r matches Err(ValidationError::EntryOutOfRange { table, entry_min: a, entry_max: b, dice_min: c, dice_max: d })
        && table@ == name && a == entry_min && b == entry_max && c == dice_min && d == dice_max
}

/// `v` is negative or not among `valid`.
pub open spec fn bad_value(valid: Seq<int>, v: int) -> bool {
    v < 0 || !valid.contains(v)
}

/// Some value of `lo..=hi` is negative or not among `valid`.
pub open spec fn reaches_outside(valid: Seq<int>, lo: int, hi: int) -> bool {
    exists|v: int| lo <= v <= hi && #[trigger] bad_value(valid, v)
}

/// Index of the first entry covering a value that is not a valid outcome.
pub open spec fn first_invalid_entry(results: Seq<ResultEntry>, valid: Seq<int>) -> Option<int>
    decreases results.len(),
{
    if results.len() == 0 {
        None
    } else {
        match first_invalid_entry(results.drop_last(), valid) {
            Some(i) => Some(i),
            None => if reaches_outside(valid, results.last().min as int, results.last().max as int) {
                Some(results.len() - 1)
            } else {
                None
            },
        }
    }
}

/// The distinct values of `vals`, in the order of their first
/// occurrence, covered exactly `0` times (when `zero`) or more than once.
pub open spec fn outcomes_with_coverage(vals: Seq<int>, results: Seq<ResultEntry>, zero: bool) -> Seq<
    i32,
>
    decreases vals.len(),
{
    if vals.len() == 0 {
        Seq::empty()
    } else {
        let init = outcomes_with_coverage(vals.drop_last(), results, zero);
        let v = vals.last();
        let c = coverage(results, v);
        if vals.drop_last().contains(v) {
            init
        } else if (zero && c == 0) || (!zero && c > 1) {
            init.push(v as i32)
        } else {
            init
        }
    }
}

/// The outcome of checking a digit-dice table: the first entry that
/// covers an impossible value, else the valid outcomes left uncovered,
/// else those covered more than once.
pub open spec fn digit_coverage_outcome(
    name: Seq<char>,
    results: Seq<ResultEntry>,
    sides: u32,
    count: u32,
    r: Result<(), ValidationError>,
) -> bool {
    let valid = sort_ints(digit_outcomes(sides as nat, count as nat, 0));
    match first_invalid_entry(results, valid) {
        Some(i) => out_of_range_error(
            r,
            name,
            results[i].min,
            results[i].max,
            valid.first() as i32,
            valid.last() as i32,
        ),
        None => if outcomes_with_coverage(valid, results, true).len() > 0 {
            r matches Err(ValidationError::RangeGap { table, missing }) && table@ == name
                && missing@ == outcomes_with_coverage(valid, results, true)
        } else if outcomes_with_coverage(valid, results, false).len() > 0 {
            r matches Err(ValidationError::RangeOverlap { table, overlapping }) && table@ == name
                && overlapping@ == outcomes_with_coverage(valid, results, false)
        } else {
            r is Ok
        },
    }
}

fn contains_value(vals: &Vec<u32>, v: i64) -> (r: bool)
    ensures
        r == as_ints(vals@).contains(v as int),
{
    let mut i: usize = 0;
    while i < vals.len()
        invariant
            i <= vals@.len(),
            forall|k: int| 0 <= k < i ==> vals@[k] as int != v,
        decreases vals@.len() - i,
    {
        if vals[i] as i64 == v {
            assert(as_ints(vals@)[i as int] == v);
            return true;
        }
        i = i + 1;
    }
    assert forall|k: int| 0 <= k < as_ints(vals@).len() implies as_ints(vals@)[k] != v by {
        assert(as_ints(vals@)[k] == vals@[k] as int);
    }
    false
}

fn count_covering(results: &[ResultEntry], v: i64) -> (c: u32)
    requires
        results@.len() <= u32::MAX,
    ensures
        c == coverage(results@, v as int),
{
    let mut c: u32 = 0;
    let mut i: usize = 0;
    while i < results.len()
        invariant
            i <= results@.len(),
            results@.len() <= u32::MAX,
            c == coverage(results@.take(i as int), v as int),
            c <= i,
        decreases results@.len() - i,
    {
        let ghost t = results@.take(i + 1);
        assert(t.drop_last() =~= results@.take(i as int));
        if results[i].min as i64 <= v && v <= results[i].max as i64 {
            c = c + 1;
        }
        i = i + 1;
    }
    assert(results@.take(results@.len() as int) =~= results@);
    c
}

proof fn lemma_first_invalid_prefix(results: Seq<ResultEntry>, valid: Seq<int>, n: int)
    requires
        0 <= n <= results.len(),
        first_invalid_entry(results.take(n), valid) is Some,
    ensures
        first_invalid_entry(results, valid) == first_invalid_entry(results.take(n), valid),
    decreases results.len() - n,
{
    if n < results.len() {
        assert(results.take(n + 1).drop_last() =~= results.take(n));
        lemma_first_invalid_prefix(results, valid, n + 1);
    } else {
        assert(results.take(n) =~= results);
    }
}

/// Check a digit-dice table (D66, D666, ...): every entry covers only
/// valid outcomes, and every valid outcome is covered exactly once.
pub fn validate_digit_dice_coverage(
    name: &str,
    roll: &str,
    results: &[ResultEntry],
    sides: u32,
    count: u32,
) -> (r: Result<(), ValidationError>)
    requires
        digit_dice_fits(sides, count),
        count == 0 || sides >= 1,
        results@.len() <= u32::MAX,
    ensures
        digit_coverage_outcome(name@, results@, sides, count, r),
{
    let values = digit_dice_values(sides, count);
    let ghost valid = sort_ints(digit_outcomes(sides as nat, count as nat, 0));
    proof {
        crate::dice::lemma_digit_values_nonempty(sides, count);
    }
    let dice_min = values[0] as i32;
    let dice_max = values[values.len() - 1] as i32;
    let mut i: usize = 0;
    while i < results.len()
        invariant
            i <= results@.len(),
            valid == sort_ints(digit_outcomes(sides as nat, count as nat, 0)),
            as_ints(values@) == valid,
            valid.len() >= 1,
            dice_min == valid.first() as i32,
            dice_max == valid.last() as i32,
            first_invalid_entry(results@.take(i as int), valid) is None,
        decreases results@.len() - i,
    {
        let ghost t = results@.take(i + 1);
        assert(t.drop_last() =~= results@.take(i as int));
        let entry = &results[i];
        let mut v: i64 = entry.min as i64;
        let mut bad = false;
        while v <= entry.max as i64
            invariant_except_break
                !bad,
            invariant
                entry.min <= v,
                v <= entry.max + 1 || entry.max < entry.min,
                as_ints(values@) == valid,
                forall|w: int| entry.min <= w < v ==> !#[trigger] bad_value(valid, w),
            ensures
                bad == reaches_outside(valid, entry.min as int, entry.max as int),
            decreases entry.max - v + 1,
        {
            if v < 0 || !contains_value(&values, v) {
                bad = true;
                assert(bad_value(valid, v as int));
                assert(reaches_outside(valid, entry.min as int, entry.max as int));
                break;
            }
            assert(!bad_value(valid, v as int));
            v = v + 1;
        }
        if bad {
            proof {
                assert(t.last() == results@[i as int]);
                assert(first_invalid_entry(t, valid) == Some(i as int));
                lemma_first_invalid_prefix(results@, valid, i + 1);
                assert(first_invalid_entry(results@, valid) == Some(i as int));
                assert(valid.len() >= 1);
                assert(dice_min == valid.first() as i32);
                assert(dice_max == valid.last() as i32);
            }
            let err = ValidationError::EntryOutOfRange {
                table: name.to_owned(),
                entry_min: entry.min,
                entry_max: entry.max,
                dice_min,
                dice_max,
            };
            assert(entry.min == results@[i as int].min);
            assert(entry.max == results@[i as int].max);
            assert(dice_min == valid.first() as i32);
            assert(out_of_range_error(Err(err), name@, results@[i as int].min, results@[i as int].max, valid.first() as i32, valid.last() as i32));

            return Err(err);
        }
        i = i + 1;
    }
    assert(results@.take(results@.len() as int) =~= results@);
    let mut missing: Vec<i32> = Vec::new();
    let mut overlapping: Vec<i32> = Vec::new();
    let mut k: usize = 0;
    while k < values.len()
        invariant
            k <= values@.len(),
            valid == sort_ints(digit_outcomes(sides as nat, count as nat, 0)),
            as_ints(values@) == valid,
            results@.len() <= u32::MAX,
            missing@ == outcomes_with_coverage(valid.take(k as int), results@, true),
            overlapping@ == outcomes_with_coverage(valid.take(k as int), results@, false),
        decreases values@.len() - k,
    {
        let ghost t = valid.take(k + 1);
        assert(t.drop_last() =~= valid.take(k as int));
        let v = values[k];
        assert(t.last() == v as int);
        let mut seen = false;
        let mut m: usize = 0;
        while m < k
            invariant
                m <= k,
                k < values@.len(),
                as_ints(values@) == valid,
                seen == exists|p: int| 0 <= p < m && valid[p] == v as int,
            decreases k - m,
        {
            if values[m] == v {
                assert(valid[m as int] == v as int);
                seen = true;
            }
            m = m + 1;
        }
        assert(seen == valid.take(k as int).contains(v as int)) by {
            if seen {
                let p = choose|p: int| 0 <= p < k && valid[p] == v as int;
                assert(valid.take(k as int)[p] == v as int);
            }
            if valid.take(k as int).contains(v as int) {
                let p = choose|p: int| 0 <= p < k && valid.take(k as int)[p] == v as int;
                assert(valid[p] == v as int);
            }
        }
        if !seen {
            let c = count_covering(results, v as i64);
            if c == 0 {
                missing.push(v as i32);
            }
            if c > 1 {
                overlapping.push(v as i32);
            }
        }
        k = k + 1;
    }
    assert(valid.take(values@.len() as int) =~= valid);
    if missing.len() > 0 {
        return Err(ValidationError::RangeGap { table: name.to_owned(), missing });
    }
    if overlapping.len() > 0 {
        return Err(ValidationError::RangeOverlap { table: name.to_owned(), overlapping });
    }
    Ok(())
}

/// Why a roll expression's outcome envelope could not be computed.
#[derive(Debug)]
pub enum EnvelopeError {
    /// The modifier range has `min > max`.
    ModifierReversed { min: i32, max: i32 },
    /// The dice expression failed to parse, is analytically unsupported
    /// (modifier path), or failed to simulate (no-modifier path).
    Dice(Error),
    /// The simulated envelope includes negative values.
    NegativeValues { min: i64, max: i64 },
    /// The envelope is wider than `max` or overflows `i32`.
    TooWide { width: i64, max: i64 },
}

/// The unbounded envelope a roll expression yields: the analytic range
/// shifted by the modifier range, or the simulated range.
pub open spec fn raw_envelope(modifier_range: Option<ModifierRange>, facts: DiceFacts) -> Option<
    (int, int),
> {
    match modifier_range {
        Some(mr) => match facts.parsed {
            Ok(shape) => match spec_dice_range(shape) {
                Ok((lo, hi)) => Some((lo + mr.min, hi + mr.max)),
                Err(_) => None,
            },
            Err(_) => None,
        },
        None => match facts.parsed {
            Ok(_) => match facts.simulated {
                Ok((lo, hi)) => Some((lo as int, hi as int)),
                Err(_) => None,
            },
            Err(_) => None,
        },
    }
}

/// The modifier range is given and reversed (`min > max`).
pub open spec fn modifier_reversed(modifier_range: Option<ModifierRange>) -> bool {
    modifier_range matches Some(mr) && mr.min > mr.max
}

/// The inputs on which computing the envelope stays within machine
/// integers and yields an ordered range. A reversed modifier range is
/// refused before anything is computed, so it asks for nothing.
pub open spec fn envelope_defined(modifier_range: Option<ModifierRange>, facts: DiceFacts) -> bool {
    &&& (modifier_range is Some && !modifier_reversed(modifier_range)) ==> (facts.parsed matches Ok(
        shape,
    ) ==> dice_range_defined(shape))
    &&& !modifier_reversed(modifier_range) ==> (raw_envelope(modifier_range, facts) matches Some((lo, hi))
        ==> lo <= hi)
}

/// What [`outcome_envelope`] returns when the envelope was computed:
/// the envelope narrowed to `i32`, or its width when it is too wide.
pub open spec fn bounded_outcome(lo: int, hi: int, r: Result<(i32, i32), EnvelopeError>) -> bool {
    if hi - lo > MAX_ENVELOPE_WIDTH || lo < i32::MIN || hi > i32::MAX {
        r matches Err(EnvelopeError::TooWide { width, max }) && width == hi - lo && max
            == MAX_ENVELOPE_WIDTH
    } else {
        r matches Ok((a, b)) && a == lo && b == hi
    }
}

/// `r` is a dice-engine error carrying `msg`.
pub open spec fn dice_message_error(msg: Seq<char>, r: Result<(i32, i32), EnvelopeError>) -> bool {
    r matches Err(EnvelopeError::Dice(Error::Dice(m))) && m@ == msg
}

/// What [`outcome_envelope`] returns.
pub open spec fn envelope_outcome(
    roll: Seq<char>,
    modifier_range: Option<ModifierRange>,
    facts: DiceFacts,
    r: Result<(i32, i32), EnvelopeError>,
) -> bool {
    match modifier_range {
        Some(mr) => if mr.min > mr.max {
            r matches Err(EnvelopeError::ModifierReversed { min, max }) && min == mr.min && max
                == mr.max
        } else {
            match facts.parsed {
                Err(msg) => dice_message_error(msg@, r),
                Ok(shape) => match spec_dice_range(shape) {
                    Err(why) => r matches Err(
                        EnvelopeError::Dice(
                            Error::Validation(
                                ValidationError::UnsupportedDiceExpression { expr, reason },
                            ),
                        ),
                    ) && expr@ == roll && reason@ == why,
                    Ok((lo, hi)) => bounded_outcome(lo + mr.min, hi + mr.max, r),
                },
            }
        },
        None => match facts.parsed {
            Err(msg) => dice_message_error(msg@, r),
            Ok(_) => match facts.simulated {
                Err(msg) => dice_message_error(msg@, r),
                Ok((lo, hi)) => if lo < 0 || hi < 0 {
                    r matches Err(EnvelopeError::NegativeValues { min, max }) && min == lo && max
                        == hi
                } else {
                    bounded_outcome(lo as int, hi as int, r)
                },
            },
        },
    }
}

/// The contiguous outcome envelope `[min, max]` of a non-digit-dice roll:
/// analytic (shifted by the modifier range) when a modifier range is
/// present, the seeded simulation's range otherwise.
pub fn outcome_envelope(roll: &str, modifier_range: Option<ModifierRange>, facts: &DiceFacts) -> (r:
    Result<(i32, i32), EnvelopeError>)
    requires
        envelope_defined(modifier_range, *facts),
    ensures
        envelope_outcome(roll@, modifier_range, *facts, r),
{
    let (env_min, env_max) = match modifier_range {
        Some(mr) => {
            if mr.min > mr.max {
                return Err(EnvelopeError::ModifierReversed { min: mr.min, max: mr.max });
            }
            let (d_min, d_max) = match dice_range(roll, &facts.parsed) {
                Ok(range) => range,
                Err(e) => {
                    return Err(EnvelopeError::Dice(e));
                },
            };
            (d_min as i64 + mr.min as i64, d_max as i64 + mr.max as i64)
        },
        None => {
            match &facts.parsed {
                Err(msg) => {
                    return Err(EnvelopeError::Dice(Error::Dice(msg.clone())));
                },
                Ok(_) => {},
            }
            let (lo, hi) = match &facts.simulated {
                Ok(range) => *range,
                Err(msg) => {
                    return Err(EnvelopeError::Dice(Error::Dice(msg.clone())));
                },
            };
            if lo < 0 || hi < 0 {
                return Err(EnvelopeError::NegativeValues { min: lo, max: hi });
            }
            (lo, hi)
        },
    };
    match bounded_envelope(env_min, env_max) {
        Ok(range) => Ok(range),
        Err(width) => Err(EnvelopeError::TooWide { width, max: MAX_ENVELOPE_WIDTH }),
    }
}

/// `r` reports an invalid dice expression of table `name`.
pub open spec fn invalid_dice_error(
    name: Seq<char>,
    roll: Seq<char>,
    why: Seq<char>,
    r: Result<(), ValidationError>,
) -> bool {
    r matches Err(ValidationError::InvalidDiceExpression { table, expr, reason }) && table@ == name
        && expr@ == roll && reason@ == why
}

/// The message for a simulated range that dips below zero.
pub open spec fn negative_range_reason(lo: int, hi: int) -> Seq<char> {
    "dice range ["@ + decimal(lo) + ", "@ + decimal(hi) + "] includes negative values"@
}

/// How a table whose roll is not digit dice is judged: by its envelope,
/// then by the coverage of that envelope.
pub open spec fn envelope_table_outcome(
    name: Seq<char>,
    roll: Seq<char>,
    modifier_range: Option<ModifierRange>,
    facts: DiceFacts,
    results: Seq<ResultEntry>,
    r: Result<(), ValidationError>,
) -> bool {
    let too_wide = |lo: int, hi: int|
        if modifier_range is Some {
            r matches Err(ValidationError::ModifierRangeTooWide { table, width, max }) && table@
                == name && width == hi - lo && max == MAX_ENVELOPE_WIDTH
        } else {
            r matches Err(ValidationError::DiceRangeTooWide { table, width, max }) && table@ == name
                && width == hi - lo && max == MAX_ENVELOPE_WIDTH
        };
    let covered = |lo: int, hi: int|
        if hi - lo > MAX_ENVELOPE_WIDTH || lo < i32::MIN || hi > i32::MAX {
            too_wide(lo, hi)
        } else {
            envelope_coverage_outcome(name, lo, hi, results, r)
        };
    match modifier_range {
        Some(mr) => if mr.min > mr.max {
            r matches Err(ValidationError::ModifierRangeReversed { table, min, max }) && table@
                == name && min == mr.min && max == mr.max
        } else {
            match spec_dice_range(facts.parsed->Ok_0) {
                Err(why) => r matches Err(
                    ValidationError::UnsupportedDiceExpression { expr, reason },
                ) && expr@ == roll && reason@ == why,
                Ok((lo, hi)) => covered(lo + mr.min, hi + mr.max),
            }
        },
        None => match facts.simulated {
            Err(msg) => invalid_dice_error(name, roll, msg@, r),
            Ok((lo, hi)) => if lo < 0 || hi < 0 {
                invalid_dice_error(name, roll, negative_range_reason(lo as int, hi as int), r)
            } else {
                covered(lo as int, hi as int)
            },
        },
    }
}

/// Index of the first entry whose range is reversed, if any.
pub open spec fn first_reversed(results: Seq<ResultEntry>) -> Option<int>
    decreases results.len(),
{
    if results.len() == 0 {
        None
    } else {
        match first_reversed(results.drop_last()) {
            Some(i) => Some(i),
            None => if results.last().max < results.last().min {
                Some(results.len() - 1)
            } else {
                None
            },
        }
    }
}

/// How [`validate_table`] judges a table.
pub open spec fn table_outcome(table: Table, facts: DiceFacts, r: Result<(), ValidationError>) -> bool {
    match table {
        Table::Compound { .. } => r is Ok,
        Table::Simple { name, roll, results, modifier_range, .. } => match facts.parsed {
            Err(msg) => invalid_dice_error(name@, roll@, msg@, r),
            Ok(shape) => match first_reversed(results@) {
                Some(i) => r matches Err(ValidationError::RangeReversed { table, min, max })
                    && table@ == name@ && min == results@[i].min && max == results@[i].max,
                None => match spec_digit_dice_params(shape) {
                    Some((sides, count)) => if modifier_range is Some {
                        r matches Err(
                            ValidationError::ModifierUnsupportedForDigitDice { table, expr },
                        ) && table@ == name@ && expr@ == roll@
                    } else {
                        digit_coverage_outcome(name@, results@, sides, count, r)
                    },
                    None => envelope_table_outcome(
                        name@,
                        roll@,
                        modifier_range,
                        facts,
                        results@,
                        r,
                    ),
                },
            },
        },
    }
}

/// The inputs on which validating a table stays within machine integers
/// and the dice engine's facts are consistent.
pub open spec fn table_check_defined(table: Table, facts: DiceFacts) -> bool {
    match table {
        Table::Compound { .. } => true,
        Table::Simple { results, modifier_range, .. } => {
            &&& results@.len() <= u32::MAX
            &&& (facts.parsed is Ok && first_reversed(results@) is None) ==> match spec_digit_dice_params(
                facts.parsed->Ok_0,
            ) {
                Some((sides, count)) => modifier_range is None ==> (digit_dice_fits(sides, count) && (
                count == 0 || sides >= 1)),
                None => envelope_defined(modifier_range, facts),
            }
        },
    }
}

fn envelope_error_to_validation(err: EnvelopeError, table: &str, expr: &str, has_modifier: bool) -> (v:
    ValidationError)
    requires
        err matches EnvelopeError::Dice(e) ==> (e is Validation || e is Dice),
    ensures
        err matches EnvelopeError::ModifierReversed { min, max } ==> (v matches ValidationError::ModifierRangeReversed { table: t, min: a, max: b }
            && t@ == table@ && a == min && b == max),
        err matches EnvelopeError::Dice(Error::Validation(x)) ==> v == x,
        err matches EnvelopeError::Dice(Error::Dice(d)) ==> (v matches ValidationError::InvalidDiceExpression { table: t, expr: x, reason }
            && t@ == table@ && x@ == expr@ && reason@ == d@),
        err matches EnvelopeError::NegativeValues { min, max } ==> (v matches ValidationError::InvalidDiceExpression { table: t, expr: x, reason }
            && t@ == table@ && x@ == expr@ && reason@ == negative_range_reason(min as int, max as int)),
        err matches EnvelopeError::TooWide { width, max } ==> (if has_modifier {
            v matches ValidationError::ModifierRangeTooWide { table: t, width: w, max: m }
                && t@ == table@ && w == width && m == max
        } else {
            v matches ValidationError::DiceRangeTooWide { table: t, width: w, max: m } && t@
                == table@ && w == width && m == max
        }),
{
    match err {
        EnvelopeError::ModifierReversed { min, max } => ValidationError::ModifierRangeReversed {
            table: table.to_owned(),
            min,
            max,
        },
        EnvelopeError::Dice(e) => match e {
            Error::Validation(v) => v,
            Error::Dice(d) => ValidationError::InvalidDiceExpression {
                table: table.to_owned(),
                expr: expr.to_owned(),
                reason: d,
            },
            _ => {
                assert(false);
                ValidationError::InvalidDiceExpression {
                    table: table.to_owned(),
                    expr: expr.to_owned(),
                    reason: String::new(),
                }
            },
        },
        EnvelopeError::NegativeValues { min, max } => {
            let mut reason = String::new();
            push_str(&mut reason, "dice range [");
            push_i64(&mut reason, min);
            push_str(&mut reason, ", ");
            push_i64(&mut reason, max);
            push_str(&mut reason, "] includes negative values");
            ValidationError::InvalidDiceExpression {
                table: table.to_owned(),
                expr: expr.to_owned(),
                reason,
            }
        },
        EnvelopeError::TooWide { width, max } => {
            if has_modifier {
                ValidationError::ModifierRangeTooWide { table: table.to_owned(), width, max }
            } else {
                ValidationError::DiceRangeTooWide { table: table.to_owned(), width, max }
            }
        },
    }
}

/// Validate a table's internal consistency: its dice expression parses,
/// no entry range is reversed, and the entries cover every possible
/// outcome exactly once (digit dice by their exact outcomes, other dice
/// by their envelope). Chain and compound references are not checked
/// here.
#[verifier::loop_isolation(false)]
pub fn validate_table(table: &Table, facts: &DiceFacts) -> (r: Result<(), ValidationError>)
    requires
        table_check_defined(*table, *facts),
    ensures
        table_outcome(*table, *facts, r),
{
    match table {
        Table::Simple { name, roll, results, modifier_range, .. } => {
            let shape = match &facts.parsed {
                Ok(s) => s,
                Err(msg) => {
                    return Err(
                        ValidationError::InvalidDiceExpression {
                            table: name.clone(),
                            expr: roll.clone(),
                            reason: msg.clone(),
                        },
                    );
                },
            };
            let mut i: usize = 0;
            while i < results.len()
                invariant
                    i <= results@.len(),
                    first_reversed(results@.take(i as int)) is None,
                decreases results@.len() - i,
            {
                let ghost t = results@.take(i + 1);
                assert(t.drop_last() =~= results@.take(i as int));
                match validate_result_entry(&results[i], name.as_str()) {
                    Err(e) => {
                        proof {
                            assert(first_reversed(t) == Some(i as int));
                            lemma_first_reversed_prefix(results@, i + 1);
                        }
                        return Err(e);
                    },
                    Ok(()) => {},
                }
                i = i + 1;
            }
            assert(results@.take(results@.len() as int) =~= results@);
            proof {
                lemma_no_reversed(results@);
            }
            if let Some((sides, count)) = digit_dice_params(shape) {
                if modifier_range.is_some() {
                    return Err(
                        ValidationError::ModifierUnsupportedForDigitDice {
                            table: name.clone(),
                            expr: roll.clone(),
                        },
                    );
                }
                return validate_digit_dice_coverage(
                    name.as_str(),
                    roll.as_str(),
                    results.as_slice(),
                    sides,
                    count,
                );
            }
            let (envelope_min, envelope_max) = match outcome_envelope(
                roll.as_str(),
                *modifier_range,
                facts,
            ) {
                Ok(range) => range,
                Err(e) => {
                    return Err(
                        envelope_error_to_validation(
                            e,
                            name.as_str(),
                            roll.as_str(),
                            modifier_range.is_some(),
                        ),
                    );
                },
            };
            validate_envelope_coverage(name.as_str(), envelope_min, envelope_max, results.as_slice())
        },
        Table::Compound { .. } => Ok(()),
    }
}

proof fn lemma_first_reversed_prefix(results: Seq<ResultEntry>, n: int)
    requires
        0 <= n <= results.len(),
        first_reversed(results.take(n)) is Some,
    ensures
        first_reversed(results) == first_reversed(results.take(n)),
    decreases results.len() - n,
{
    if n < results.len() {
        assert(results.take(n + 1).drop_last() =~= results.take(n));
        lemma_first_reversed_prefix(results, n + 1);
    } else {
        assert(results.take(n) =~= results);
    }
}

pub(crate) proof fn lemma_no_reversed(results: Seq<ResultEntry>)
    requires
        first_reversed(results) is None,
    ensures
        forall|k: int| 0 <= k < results.len() ==> #[trigger] results[k].min <= results[k].max,
    decreases results.len(),
{
    if results.len() > 0 {
        lemma_no_reversed(results.drop_last());
        assert forall|k: int| 0 <= k < results.len() implies #[trigger] results[k].min
            <= results[k].max by {
            if k < results.len() - 1 {
                assert(results.drop_last()[k] == results[k]);
            }
        }
    }
}

/// Index of the last dot of `s`, if any.
pub open spec fn last_dot(s: Seq<char>) -> Option<int>
    decreases s.len(),
{
    if s.len() == 0 {
        None
    } else if s.last() == '.' {
        Some(s.len() - 1)
    } else {
        last_dot(s.drop_last())
    }
}

/// The namespace of a fully qualified id: everything before its last
/// dot, or nothing when it has no dot.
pub open spec fn namespace_of(fqid: Seq<char>) -> Seq<char> {
    match last_dot(fqid) {
        Some(i) => fqid.take(i),
        None => Seq::empty(),
    }
}

/// An unresolved reference: whether it is a chain (rather than a
/// compound) reference, the name of the referring table, the reference.
pub type RefProblem = (bool, Seq<char>, Seq<char>);

/// The unresolved chain references among `chains`.
pub open spec fn chain_problems(
    reg: Seq<(Seq<char>, Table)>,
    ns: Seq<char>,
    name: Seq<char>,
    chains: Seq<ChainRef>,
) -> Seq<RefProblem>
    decreases chains.len(),
{
    if chains.len() == 0 {
        Seq::empty()
    } else {
        let init = chain_problems(reg, ns, name, chains.drop_last());
        let id = chains.last().spec_table_id();
        if spec_resolve(reg, id, ns) is None {
            init.push((true, name, id))
        } else {
            init
        }
    }
}

/// The unresolved chain references of a table's entries, in order.
pub open spec fn entry_problems(
    reg: Seq<(Seq<char>, Table)>,
    ns: Seq<char>,
    name: Seq<char>,
    results: Seq<ResultEntry>,
) -> Seq<RefProblem>
    decreases results.len(),
{
    if results.len() == 0 {
        Seq::empty()
    } else {
        entry_problems(reg, ns, name, results.drop_last()) + match results.last().chain {
            Some(chains) => chain_problems(reg, ns, name, chains@),
            None => Seq::empty(),
        }
    }
}

/// The unresolved sub-table references of a compound table.
pub open spec fn compound_problems(
    reg: Seq<(Seq<char>, Table)>,
    ns: Seq<char>,
    name: Seq<char>,
    refs: Seq<String>,
) -> Seq<RefProblem>
    decreases refs.len(),
{
    if refs.len() == 0 {
        Seq::empty()
    } else {
        let init = compound_problems(reg, ns, name, refs.drop_last());
        if spec_resolve(reg, refs.last()@, ns) is None {
            init.push((false, name, refs.last()@))
        } else {
            init
        }
    }
}

/// The unresolved references of one registered table.
pub open spec fn table_problems(reg: Seq<(Seq<char>, Table)>, fqid: Seq<char>, table: Table) -> Seq<
    RefProblem,
> {
    let ns = namespace_of(fqid);
    match table {
        Table::Simple { name, results, .. } => entry_problems(reg, ns, name@, results@),
        Table::Compound { name, tables, .. } => compound_problems(reg, ns, name@, tables@),
    }
}

/// The unresolved references of the tables `tables` (a part of `reg`).
pub open spec fn reference_problems(
    reg: Seq<(Seq<char>, Table)>,
    tables: Seq<(Seq<char>, Table)>,
) -> Seq<RefProblem>
    decreases tables.len(),
{
    if tables.len() == 0 {
        Seq::empty()
    } else {
        reference_problems(reg, tables.drop_last()) + table_problems(
            reg,
            tables.last().0,
            tables.last().1,
        )
    }
}

proof fn chain_problem_at(
    reg: Seq<(Seq<char>, Table)>,
    ns: Seq<char>,
    name: Seq<char>,
    chains: Seq<ChainRef>,
    c: int,
) -> (k: int)
    requires
        0 <= c < chains.len(),
        spec_resolve(reg, chains[c].spec_table_id(), ns) is None,
    ensures
        0 <= k < chain_problems(reg, ns, name, chains).len(),
        chain_problems(reg, ns, name, chains)[k] == (true, name, chains[c].spec_table_id()),
    decreases chains.len(),
{
    if c == chains.len() - 1 {
        chain_problems(reg, ns, name, chains.drop_last()).len() as int
    } else {
        assert(chains.drop_last()[c] == chains[c]);
        let k = chain_problem_at(reg, ns, name, chains.drop_last(), c);
        k
    }
}

proof fn chain_problem_source(
    reg: Seq<(Seq<char>, Table)>,
    ns: Seq<char>,
    name: Seq<char>,
    chains: Seq<ChainRef>,
    k: int,
) -> (c: int)
    requires
        0 <= k < chain_problems(reg, ns, name, chains).len(),
    ensures
        0 <= c < chains.len(),
        chain_problems(reg, ns, name, chains)[k] == (true, name, chains[c].spec_table_id()),
        spec_resolve(reg, chains[c].spec_table_id(), ns) is None,
    decreases chains.len(),
{
    let init = chain_problems(reg, ns, name, chains.drop_last());
    if k < init.len() {
        let c = chain_problem_source(reg, ns, name, chains.drop_last(), k);
        assert(chains.drop_last()[c] == chains[c]);
        c
    } else {
        chains.len() - 1
    }
}

proof fn entry_problem_at(
    reg: Seq<(Seq<char>, Table)>,
    ns: Seq<char>,
    name: Seq<char>,
    results: Seq<ResultEntry>,
    e: int,
    cs: Vec<ChainRef>,
    c: int,
) -> (k: int)
    requires
        0 <= e < results.len(),
        results[e].chain == Some(cs),
        0 <= c < cs@.len(),
        spec_resolve(reg, cs@[c].spec_table_id(), ns) is None,
    ensures
        0 <= k < entry_problems(reg, ns, name, results).len(),
        entry_problems(reg, ns, name, results)[k] == (true, name, cs@[c].spec_table_id()),
    decreases results.len(),
{
    let init = entry_problems(reg, ns, name, results.drop_last());
    if e == results.len() - 1 {
        let j = chain_problem_at(reg, ns, name, cs@, c);
        init.len() + j
    } else {
        assert(results.drop_last()[e] == results[e]);
        let k = entry_problem_at(reg, ns, name, results.drop_last(), e, cs, c);
        k
    }
}

proof fn entry_problem_source(
    reg: Seq<(Seq<char>, Table)>,
    ns: Seq<char>,
    name: Seq<char>,
    results: Seq<ResultEntry>,
    k: int,
) -> (ec: (int, int))
    requires
        0 <= k < entry_problems(reg, ns, name, results).len(),
    ensures
        0 <= ec.0 < results.len(),
        results[ec.0].chain is Some,
        0 <= ec.1 < results[ec.0].chain->Some_0@.len(),
        entry_problems(reg, ns, name, results)[k] == (true, name, results[ec.0].chain->Some_0@[ec.1].spec_table_id()),
        spec_resolve(reg, results[ec.0].chain->Some_0@[ec.1].spec_table_id(), ns) is None,
    decreases results.len(),
{
    let init = entry_problems(reg, ns, name, results.drop_last());
    if k < init.len() {
        let ec = entry_problem_source(reg, ns, name, results.drop_last(), k);
        assert(results.drop_last()[ec.0] == results[ec.0]);
        ec
    } else {
        let last = results.len() - 1;
        assert(results.last() == results[last]);
        match results.last().chain {
            Some(cs) => {
                let c = chain_problem_source(reg, ns, name, cs@, k - init.len());
                (last, c)
            },
            None => {
                assert(entry_problems(reg, ns, name, results) =~= init);
                (0, 0)
            },
        }
    }
}

proof fn compound_problem_at(
    reg: Seq<(Seq<char>, Table)>,
    ns: Seq<char>,
    name: Seq<char>,
    refs: Seq<String>,
    j: int,
) -> (k: int)
    requires
        0 <= j < refs.len(),
        spec_resolve(reg, refs[j]@, ns) is None,
    ensures
        0 <= k < compound_problems(reg, ns, name, refs).len(),
        compound_problems(reg, ns, name, refs)[k] == (false, name, refs[j]@),
    decreases refs.len(),
{
    if j == refs.len() - 1 {
        compound_problems(reg, ns, name, refs.drop_last()).len() as int
    } else {
        assert(refs.drop_last()[j] == refs[j]);
        let k = compound_problem_at(reg, ns, name, refs.drop_last(), j);
        k
    }
}

proof fn compound_problem_source(
    reg: Seq<(Seq<char>, Table)>,
    ns: Seq<char>,
    name: Seq<char>,
    refs: Seq<String>,
    k: int,
) -> (j: int)
    requires
        0 <= k < compound_problems(reg, ns, name, refs).len(),
    ensures
        0 <= j < refs.len(),
        compound_problems(reg, ns, name, refs)[k] == (false, name, refs[j]@),
        spec_resolve(reg, refs[j]@, ns) is None,
    decreases refs.len(),
{
    let init = compound_problems(reg, ns, name, refs.drop_last());
    if k < init.len() {
        let j = compound_problem_source(reg, ns, name, refs.drop_last(), k);
        assert(refs.drop_last()[j] == refs[j]);
        j
    } else {
        refs.len() - 1
    }
}

proof fn reference_problem_at(
    reg: Seq<(Seq<char>, Table)>,
    tables: Seq<(Seq<char>, Table)>,
    t: int,
    k: int,
) -> (m: int)
    requires
        0 <= t < tables.len(),
        0 <= k < table_problems(reg, tables[t].0, tables[t].1).len(),
    ensures
        0 <= m < reference_problems(reg, tables).len(),
        reference_problems(reg, tables)[m] == table_problems(reg, tables[t].0, tables[t].1)[k],
    decreases tables.len(),
{
    let init = reference_problems(reg, tables.drop_last());
    if t == tables.len() - 1 {
        init.len() + k
    } else {
        assert(tables.drop_last()[t] == tables[t]);
        let m = reference_problem_at(reg, tables.drop_last(), t, k);
        m
    }
}

proof fn reference_problem_source(
    reg: Seq<(Seq<char>, Table)>,
    tables: Seq<(Seq<char>, Table)>,
    m: int,
) -> (tk: (int, int))
    requires
        0 <= m < reference_problems(reg, tables).len(),
    ensures
        0 <= tk.0 < tables.len(),
        0 <= tk.1 < table_problems(reg, tables[tk.0].0, tables[tk.0].1).len(),
        reference_problems(reg, tables)[m] == table_problems(reg, tables[tk.0].0, tables[tk.0].1)[tk.1],
    decreases tables.len(),
{
    let init = reference_problems(reg, tables.drop_last());
    if m < init.len() {
        let tk = reference_problem_source(reg, tables.drop_last(), m);
        assert(tables.drop_last()[tk.0] == tables[tk.0]);
        tk
    } else {
        (tables.len() - 1, m - init.len())
    }
}

/// A law of checking references: a chain reference of an entry of a
/// simple table that does not resolve from that table's namespace is
/// reported, under the table's name, whatever form the reference takes
/// (a plain table id or one with values to reroll), so that checking the
/// registry does not succeed.
pub proof fn lemma_unresolved_chain_reported(
    reg: Seq<(Seq<char>, Table)>,
    t: int,
    e: int,
    cs: Vec<ChainRef>,
    c: int,
)
    requires
        0 <= t < reg.len(),
        reg[t].1 is Simple,
        0 <= e < reg[t].1->Simple_results@.len(),
        reg[t].1->Simple_results@[e].chain == Some(cs),
        0 <= c < cs@.len(),
        spec_resolve(reg, cs@[c].spec_table_id(), namespace_of(reg[t].0)) is None,
    ensures
        reference_problems(reg, reg).contains((true, reg[t].1.spec_name(), cs@[c].spec_table_id())),
        reference_problems(reg, reg).len() > 0,
{
    let ns = namespace_of(reg[t].0);
    let name = reg[t].1.spec_name();
    let k = entry_problem_at(reg, ns, name, reg[t].1->Simple_results@, e, cs, c);
    let m = reference_problem_at(reg, reg, t, k);
    assert(reference_problems(reg, reg)[m] == (true, name, cs@[c].spec_table_id()));
}

/// A law of checking references: a sub-table of a compound table that
/// does not resolve from that table's namespace is reported, under the
/// table's name, so that checking the registry does not succeed.
pub proof fn lemma_unresolved_sub_table_reported(reg: Seq<(Seq<char>, Table)>, t: int, j: int)
    requires
        0 <= t < reg.len(),
        reg[t].1 is Compound,
        0 <= j < reg[t].1->Compound_tables@.len(),
        spec_resolve(reg, reg[t].1->Compound_tables@[j]@, namespace_of(reg[t].0)) is None,
    ensures
        reference_problems(reg, reg).contains((false, reg[t].1.spec_name(), reg[t].1->Compound_tables@[j]@)),
        reference_problems(reg, reg).len() > 0,
{
    let ns = namespace_of(reg[t].0);
    let name = reg[t].1.spec_name();
    let k = compound_problem_at(reg, ns, name, reg[t].1->Compound_tables@, j);
    let m = reference_problem_at(reg, reg, t, k);
    assert(reference_problems(reg, reg)[m] == (false, name, reg[t].1->Compound_tables@[j]@));
}

/// A law of checking references: every reported problem is a reference
/// of a registered table that does not resolve from that table's
/// namespace: a chain reference of one of its entries when reported as a
/// chain, one of its sub-tables otherwise.
pub proof fn lemma_reported_references_unresolved(reg: Seq<(Seq<char>, Table)>, m: int)
    requires
        0 <= m < reference_problems(reg, reg).len(),
    ensures
        ({
            let p = reference_problems(reg, reg)[m];
            exists|t: int|
                #![trigger reg[t]]
                {
                    &&& 0 <= t < reg.len()
                    &&& reg[t].1.spec_name() == p.1
                    &&& spec_resolve(reg, p.2, namespace_of(reg[t].0)) is None
                    &&& p.0 ==> reg[t].1 is Simple && exists|e: int, c: int|
                        0 <= e < reg[t].1->Simple_results@.len() && reg[t].1->Simple_results@[e].chain is Some
                            && 0 <= c < reg[t].1->Simple_results@[e].chain->Some_0@.len()
                            && (#[trigger] reg[t].1->Simple_results@[e].chain->Some_0@[c]).spec_table_id() == p.2
                    &&& !p.0 ==> reg[t].1 is Compound && exists|j: int|
                        0 <= j < reg[t].1->Compound_tables@.len() && (#[trigger] reg[t].1->Compound_tables@[j])@ == p.2
                }
        }),
{
    let p = reference_problems(reg, reg)[m];
    let tk = reference_problem_source(reg, reg, m);
    let t = tk.0;
    let ns = namespace_of(reg[t].0);
    match reg[t].1 {
        Table::Simple { name, results, .. } => {
            let ec = entry_problem_source(reg, ns, name@, results@, tk.1);
            assert(reg[t].1->Simple_results@[ec.0].chain is Some);
        },
        Table::Compound { name, tables, .. } => {
            let j = compound_problem_source(reg, ns, name@, tables@, tk.1);
            assert(reg[t].1->Compound_tables@[j]@ == p.2);
        },
    }
}

/// `e` is the error that reports problem `p`.
pub open spec fn reports(e: ValidationError, p: RefProblem) -> bool {
    if p.0 {
        e matches ValidationError::UnresolvedChain { table, reference } && table@ == p.1
            && reference@ == p.2
    } else {
        e matches ValidationError::UnresolvedCompoundRef { table, reference } && table@ == p.1
            && reference@ == p.2
    }
}

/// `errs` reports `probs`, one for one, in order.
pub open spec fn reports_all(errs: Seq<ValidationError>, probs: Seq<RefProblem>) -> bool {
    errs.len() == probs.len() && forall|k: int| 0 <= k < errs.len() ==> reports(#[trigger] errs[k], probs[k])
}

/// The namespace of a fully qualified id (before its last dot).
pub fn namespace_part(fqid: &str) -> (r: String)
    ensures
        r@ == namespace_of(fqid@),
{
    let v = chars_of(fqid);
    let mut i: usize = v.len();
    assert(v@.take(v@.len() as int) =~= v@);
    while i > 0
        invariant
            v@ == fqid@,
            i <= v@.len(),
            last_dot(v@) == last_dot(v@.take(i as int)),
        decreases i,
    {
        let ghost t = v@.take(i as int);
        assert(t.drop_last() =~= v@.take(i - 1));
        if v[i - 1] == '.' {
            assert(last_dot(t) == Some(i - 1));
            assert(v@.take(i - 1) =~= v@.subrange(0, i - 1));
            return crate::text::string_from_range(v.as_slice(), 0, i - 1);
        }
        i = i - 1;
    }
    assert(v@.take(0) =~= Seq::<char>::empty());
    String::new()
}

fn push_all(errs: &mut Vec<ValidationError>, more: Vec<ValidationError>)
    ensures
        final(errs)@ == old(errs)@ + more@,
{
    let mut more = more;
    errs.append(&mut more);
}

fn check_table_refs(registry: &Registry, fqid: &str, table: &Table) -> (errs: Vec<ValidationError>)
    requires
        registry.wf(),
    ensures
        reports_all(errs@, table_problems(registry@, fqid@, *table)),
{
    let ns = namespace_part(fqid);
    let mut errs: Vec<ValidationError> = Vec::new();
    match table {
        Table::Simple { name, results, .. } => {
            let mut i: usize = 0;
            while i < results.len()
                invariant
                    registry.wf(),
                    ns@ == namespace_of(fqid@),
                    i <= results@.len(),
                    reports_all(errs@, entry_problems(registry@, ns@, name@, results@.take(i as int))),
                decreases results@.len() - i,
            {
                let ghost t = results@.take(i + 1);
                assert(t.drop_last() =~= results@.take(i as int));
                let ghost before = errs@;
                if let Some(chains) = &results[i].chain {
                    let mut j: usize = 0;
                    while j < chains.len()
                        invariant
                            registry.wf(),
                            j <= chains@.len(),
                            errs@.len() >= before.len(),
                            errs@.take(before.len() as int) == before,
                            reports_all(errs@.skip(before.len() as int), chain_problems(registry@, ns@, name@, chains@.take(j as int))),
                        decreases chains@.len() - j,
                    {
                        let ghost c = chains@.take(j + 1);
                        assert(c.drop_last() =~= chains@.take(j as int));
                        let id = chains[j].table_id();
                        let ghost old_skip = errs@.skip(before.len() as int);
                        assert(c.last() == chains@[j as int]);
                        if registry.resolve(id, ns.as_str()).is_none() {
                            let e = ValidationError::UnresolvedChain {
                                table: name.clone(),
                                reference: id.to_owned(),
                            };
                            errs.push(e);
                            assert(errs@.take(before.len() as int) =~= before);
                            assert(errs@.skip(before.len() as int) =~= old_skip.push(e));
                            assert(reports(e, (true, name@, id@)));
                        }
                        j = j + 1;
                    }
                    assert(chains@.take(chains@.len() as int) =~= chains@);
                }
                proof {
                    let added = match results@[i as int].chain {
                        Some(chains) => chain_problems(registry@, ns@, name@, chains@),
                        None => Seq::empty(),
                    };
                    if results@[i as int].chain is None {
                        assert(errs@.skip(before.len() as int) =~= Seq::<ValidationError>::empty());
                    }
                    assert(errs@ =~= before + errs@.skip(before.len() as int));
                    assert(entry_problems(registry@, ns@, name@, t) == entry_problems(registry@, ns@, name@, results@.take(i as int)) + added);
                }
                i = i + 1;
            }
            assert(results@.take(results@.len() as int) =~= results@);
        },
        Table::Compound { name, tables, .. } => {
            let mut i: usize = 0;
            while i < tables.len()
                invariant
                    registry.wf(),
                    ns@ == namespace_of(fqid@),
                    i <= tables@.len(),
                    reports_all(errs@, compound_problems(registry@, ns@, name@, tables@.take(i as int))),
                decreases tables@.len() - i,
            {
                let ghost t = tables@.take(i + 1);
                assert(t.drop_last() =~= tables@.take(i as int));
                if registry.resolve(tables[i].as_str(), ns.as_str()).is_none() {
                    errs.push(
                        ValidationError::UnresolvedCompoundRef {
                            table: name.clone(),
                            reference: tables[i].clone(),
                        },
                    );
                }
                i = i + 1;
            }
            assert(tables@.take(tables@.len() as int) =~= tables@);
        },
    }
    errs
}

/// Check that every chain and compound reference resolves in the
/// registry; all unresolved references are reported, table by table in
/// registry order.
pub fn validate_references(registry: &Registry) -> (r: Result<(), Vec<ValidationError>>)
    ensures
        reference_problems(registry@, registry@).len() == 0 ==> r is Ok,
        reference_problems(registry@, registry@).len() > 0 ==> (r matches Err(errs) && reports_all(
            errs@,
            reference_problems(registry@, registry@),
        )),
{
    proof {
        use_type_invariant(registry);
    }
    let all = registry.all_tables();
    let mut errs: Vec<ValidationError> = Vec::new();
    let mut i: usize = 0;
    while i < all.len()
        invariant
            registry.wf(),
            i <= all@.len(),
            all@.len() == registry@.len(),
            forall|k: int| 0 <= k < all@.len() ==> all@[k].0@ == registry@[k].0 && *all@[k].1 == registry@[k].1,
            reports_all(errs@, reference_problems(registry@, registry@.take(i as int))),
        decreases all@.len() - i,
    {
        let ghost t = registry@.take(i + 1);
        assert(t.drop_last() =~= registry@.take(i as int));
        let ghost before = errs@;
        let more = check_table_refs(registry, all[i].0, all[i].1);
        push_all(&mut errs, more);
        proof {
            assert(t.last() == registry@[i as int]);
            assert forall|k: int| 0 <= k < errs@.len() implies reports(
                #[trigger] errs@[k],
                reference_problems(registry@, t)[k],
            ) by {
                if k >= before.len() {
                    assert(errs@[k] == more@[k - before.len()]);
                }
            }
        }
        i = i + 1;
    }
    assert(registry@.take(registry@.len() as int) =~= registry@);
    if errs.len() == 0 {
        Ok(())
    } else {
        Err(errs)
    }
}

proof fn lemma_values_with_coverage_empty(results: Seq<ResultEntry>, lo: int, hi: int, zero: bool)
    ensures
        values_with_coverage(results, lo, hi, zero).len() == 0 <==> forall|v: int|
            lo <= v <= hi ==> !((zero && #[trigger] coverage(results, v) == 0) || (!zero && coverage(
                results,
                v,
            ) > 1)),
    decreases hi - lo + 1,
{
    if hi >= lo {
        lemma_values_with_coverage_empty(results, lo, hi - 1, zero);
        let init = values_with_coverage(results, lo, hi - 1, zero);
        if init.len() > 0 {
            assert(values_with_coverage(results, lo, hi, zero).len() >= init.len());
        }
    }
}

/// A law of coverage: the coverage of a value is the number of entries
/// whose range `min..=max` holds it.
pub proof fn lemma_coverage_counts(results: Seq<ResultEntry>, v: int)
    ensures
        coverage(results, v) == results.filter(|e: ResultEntry| e.min <= v <= e.max).len(),
    decreases results.len(),
{
    reveal(Seq::filter);
    if results.len() > 0 {
        lemma_coverage_counts(results.drop_last(), v);
    }
}

proof fn lemma_outcomes_with_coverage_empty(vals: Seq<int>, results: Seq<ResultEntry>, zero: bool)
    ensures
        outcomes_with_coverage(vals, results, zero).len() == 0 <==> forall|k: int|
            0 <= k < vals.len() ==> !((zero && #[trigger] coverage(results, vals[k]) == 0) || (!zero
                && coverage(results, vals[k]) > 1)),
    decreases vals.len(),
{
    if vals.len() > 0 {
        let init = vals.drop_last();
        lemma_outcomes_with_coverage_empty(init, results, zero);
        let v = vals.last();
        if init.contains(v) {
            let j = choose|j: int| 0 <= j < init.len() && init[j] == v;
            assert(vals[j] == v);
        }
        assert forall|k: int| 0 <= k < init.len() implies init[k] == vals[k] by {}
        if outcomes_with_coverage(init, results, zero).len() > 0 {
            assert(outcomes_with_coverage(vals, results, zero).len() >= outcomes_with_coverage(init, results, zero).len());
            let k = choose|k: int|
                0 <= k < init.len() && ((zero && #[trigger] coverage(results, init[k]) == 0) || (!zero && coverage(
                    results,
                    init[k],
                ) > 1));
            assert(init[k] == vals[k]);
        }
        assert(vals[vals.len() - 1] == v);
    }
}

proof fn lemma_first_invalid_none(results: Seq<ResultEntry>, valid: Seq<int>)
    ensures
        first_invalid_entry(results, valid) is None <==> forall|k: int|
            0 <= k < results.len() ==> !reaches_outside(valid, #[trigger] results[k].min as int, results[k].max as int),
    decreases results.len(),
{
    if results.len() > 0 {
        let init = results.drop_last();
        lemma_first_invalid_none(init, valid);
        assert forall|k: int| 0 <= k < init.len() implies init[k] == results[k] by {}
        assert(results[results.len() - 1] == results.last());
        if first_invalid_entry(init, valid) is Some {
            let k = choose|k: int| 0 <= k < init.len() && reaches_outside(valid, #[trigger] init[k].min as int, init[k].max as int);
            assert(init[k] == results[k]);
        }
    }
}

/// `v` is one of the outcomes `valid`, none of which is negative.
pub open spec fn is_outcome(valid: Seq<int>, v: int) -> bool {
    0 <= v && valid.contains(v)
}

/// Every value of `lo..=hi` is one of the outcomes `valid`.
pub open spec fn only_outcomes(valid: Seq<int>, lo: int, hi: int) -> bool {
    forall|v: int| lo <= v <= hi ==> #[trigger] is_outcome(valid, v)
}

/// A law of digit-dice tables: the check accepts exactly the tables whose
/// entries cover only outcomes the digit dice can show and cover each of
/// those outcomes exactly once.
pub proof fn lemma_digit_coverage_exact(name: Seq<char>, results: Seq<ResultEntry>, sides: u32, count: u32)
    ensures
        ({
            let valid = sort_ints(digit_outcomes(sides as nat, count as nat, 0));
            digit_coverage_outcome(name, results, sides, count, Ok(())) <==> {
                &&& forall|k: int|
                    0 <= k < results.len() ==> #[trigger] only_outcomes(valid, results[k].min as int, results[k].max as int)
                &&& forall|k: int| 0 <= k < valid.len() ==> #[trigger] coverage(results, valid[k]) == 1
            }
        }),
{
    let valid = sort_ints(digit_outcomes(sides as nat, count as nat, 0));
    lemma_first_invalid_none(results, valid);
    lemma_outcomes_with_coverage_empty(valid, results, true);
    lemma_outcomes_with_coverage_empty(valid, results, false);
    if first_invalid_entry(results, valid) is Some {
        let k = choose|k: int|
            0 <= k < results.len() && reaches_outside(valid, #[trigger] results[k].min as int, results[k].max as int);
        let v = choose|v: int| results[k].min <= v <= results[k].max && #[trigger] bad_value(valid, v);
        assert(!is_outcome(valid, v));
        assert(!only_outcomes(valid, results[k].min as int, results[k].max as int));
    } else {
        assert forall|k: int| 0 <= k < results.len() implies #[trigger] only_outcomes(
            valid,
            results[k].min as int,
            results[k].max as int,
        ) by {
            assert(!reaches_outside(valid, results[k].min as int, results[k].max as int));
            assert forall|v: int| results[k].min <= v <= results[k].max implies #[trigger] is_outcome(valid, v) by {
                assert(!bad_value(valid, v));
            }
        }
        let gaps = outcomes_with_coverage(valid, results, true);
        let overlaps = outcomes_with_coverage(valid, results, false);
        if forall|k: int| 0 <= k < valid.len() ==> #[trigger] coverage(results, valid[k]) == 1 {
            assert(gaps.len() == 0);
            assert(overlaps.len() == 0);
        }
        if gaps.len() == 0 && overlaps.len() == 0 {
            assert forall|k: int| 0 <= k < valid.len() implies #[trigger] coverage(results, valid[k]) == 1 by {
                assert(!(coverage(results, valid[k]) == 0));
                assert(!(coverage(results, valid[k]) > 1));
            }
        }
    }
}

/// A law of coverage reports: for a range within `i32`, the values
/// reported as uncovered (or as covered more than once) are exactly the
/// values of the range with that coverage, in strictly ascending order.
pub proof fn lemma_reported_values_exact(results: Seq<ResultEntry>, lo: int, hi: int, zero: bool)
    requires
        i32::MIN <= lo,
        hi <= i32::MAX,
    ensures
        ({
            let vals = values_with_coverage(results, lo, hi, zero);
            &&& forall|k: int|
                0 <= k < vals.len() ==> lo <= #[trigger] vals[k] <= hi && if zero {
                    coverage(results, vals[k] as int) == 0
                } else {
                    coverage(results, vals[k] as int) > 1
                }
            &&& forall|k1: int, k2: int| 0 <= k1 < k2 < vals.len() ==> #[trigger] vals[k1] < #[trigger] vals[k2]
            &&& forall|v: int|
                lo <= v <= hi && (if zero {
                    coverage(results, v) == 0
                } else {
                    coverage(results, v) > 1
                }) ==> #[trigger] vals.contains(v as i32)
        }),
    decreases hi - lo + 1,
{
    if hi >= lo {
        lemma_reported_values_exact(results, lo, hi - 1, zero);
        let init = values_with_coverage(results, lo, hi - 1, zero);
        let vals = values_with_coverage(results, lo, hi, zero);
        assert forall|v: int|
            lo <= v <= hi && (if zero {
                coverage(results, v) == 0
            } else {
                coverage(results, v) > 1
            }) implies #[trigger] vals.contains(v as i32) by {
            if v < hi {
                assert(init.contains(v as i32));
                let x = choose|x: int| 0 <= x < init.len() && init[x] == v as i32;
                assert(vals[x] == v as i32);
            } else {
                assert(vals[init.len() as int] == v as i32);
            }
        }
    }
}

/// Envelope coverage accepts exactly the entries that stay inside the
/// envelope and cover each of its values exactly once.
pub proof fn lemma_envelope_coverage_exact(name: Seq<char>, lo: int, hi: int, results: Seq<ResultEntry>)
    ensures
        envelope_coverage_outcome(name, lo, hi, results, Ok(())) <==> {
            &&& forall|k: int| 0 <= k < results.len() ==> lo <= #[trigger] results[k].min && results[k].max <= hi
            &&& forall|v: int| lo <= v <= hi ==> #[trigger] coverage(results, v) == 1
        },
{
    lemma_values_with_coverage_empty(results, lo, hi, true);
    lemma_values_with_coverage_empty(results, lo, hi, false);
    if first_outside(results, lo, hi) is None {
        assert forall|k: int| 0 <= k < results.len() implies lo <= #[trigger] results[k].min && results[k].max <= hi by {
            lemma_first_outside_all(results, lo, hi, k);
        }
    } else {
        let i = first_outside(results, lo, hi).unwrap();
        lemma_first_outside_index(results, lo, hi);
        assert(!(lo <= results[i].min && results[i].max <= hi));
    }
    if forall|k: int| 0 <= k < results.len() ==> lo <= #[trigger] results[k].min && results[k].max <= hi {
        lemma_first_outside_none(results, lo, hi);
    }
}

proof fn lemma_first_outside_index(results: Seq<ResultEntry>, lo: int, hi: int)
    ensures
        first_outside(results, lo, hi) matches Some(i) ==> 0 <= i < results.len() && (results[i].min
            < lo || results[i].max > hi),
    decreases results.len(),
{
    if results.len() > 0 {
        lemma_first_outside_index(results.drop_last(), lo, hi);
        match first_outside(results.drop_last(), lo, hi) {
            Some(i) => {
                assert(results.drop_last()[i] == results[i]);
            },
            None => {},
        }
    }
}

/// Whether computing the outcome envelope of dice with `facts` (shifted by
/// `modifier_range`, if any) stays within machine integers and yields an
/// ordered range.
pub fn envelope_checkable(modifier_range: Option<ModifierRange>, facts: &DiceFacts) -> (r: bool)
    ensures
        r == envelope_defined(modifier_range, *facts),
{
    if let Some(mr) = modifier_range {
        if mr.min > mr.max {
            return true;
        }
    }
    match &facts.parsed {
        Ok(shape) => {
            if modifier_range.is_some() && !dice_range_fits(shape) {
                return false;
            }
        },
        Err(_) => {
            return true;
        },
    }
    match modifier_range {
        Some(mr) => match dice_range("", &facts.parsed) {
            Ok((lo, hi)) => (lo as i64) + (mr.min as i64) <= (hi as i64) + (mr.max as i64),
            Err(_) => true,
        },
        None => match &facts.simulated {
            Ok((lo, hi)) => *lo <= *hi,
            Err(_) => true,
        },
    }
}

fn no_reversed_entry(results: &Vec<ResultEntry>) -> (r: bool)
    ensures
        r == (first_reversed(results@) is None),
{
    let mut i: usize = 0;
    while i < results.len()
        invariant
            i <= results@.len(),
            first_reversed(results@.take(i as int)) is None,
        decreases results@.len() - i,
    {
        assert(results@.take(i + 1).drop_last() =~= results@.take(i as int));
        if results[i].max < results[i].min {
            proof {
                lemma_first_reversed_prefix(results@, i + 1);
            }
            return false;
        }
        i = i + 1;
    }
    assert(results@.take(results@.len() as int) =~= results@);
    true
}

/// Whether a table's facts lie where [`validate_table`] is defined: every
/// count and range it computes fits machine integers and its outcome
/// envelope is ordered. Compound tables always are.
pub fn table_checkable(table: &Table, facts: &DiceFacts) -> (r: bool)
    ensures
        r == table_check_defined(*table, *facts),
{
    match table {
        Table::Compound { .. } => true,
        Table::Simple { results, modifier_range, .. } => {
            if results.len() as u64 > u32::MAX as u64 {
                return false;
            }
            if !no_reversed_entry(results) {
                return true;
            }
            match &facts.parsed {
                Ok(shape) => match digit_dice_params(shape) {
                    Some((sides, count)) => modifier_range.is_some() || digit_dice_fit(sides, count),
                    None => envelope_checkable(*modifier_range, facts),
                },
                Err(_) => true,
            }
        },
    }
}

/// Why an envelope could not be computed, in words, with the numbers an
/// editor needs to explain it.
pub open spec fn envelope_reason_text(e: EnvelopeError) -> Seq<char> {
    match e {
        EnvelopeError::ModifierReversed { min, max } => "modifier_range reversed: ["@ + decimal(min as int) + ", "@
            + decimal(max as int) + "]"@,
        EnvelopeError::Dice(err) => error_text(err),
        EnvelopeError::NegativeValues { min, max } => "dice range ["@ + decimal(min as int) + ", "@ + decimal(
            max as int,
        ) + "] includes negative values"@,
        EnvelopeError::TooWide { width, max } => "envelope too wide: "@ + decimal(width as int) + " > "@ + decimal(
            max as int,
        ),
    }
}

impl EnvelopeError {
    /// Why the envelope could not be computed, in words.
    pub fn reason(&self) -> (r: String)
        ensures
            r@ == envelope_reason_text(*self),
    {
        let mut out = String::new();
        match self {
            EnvelopeError::ModifierReversed { min, max } => {
                push_str(&mut out, "modifier_range reversed: [");
                push_i64(&mut out, *min as i64);
                push_str(&mut out, ", ");
                push_i64(&mut out, *max as i64);
                push_str(&mut out, "]");
            },
            EnvelopeError::Dice(err) => {
                let m = err.message();
                push_str(&mut out, m.as_str());
            },
            EnvelopeError::NegativeValues { min, max } => {
                push_str(&mut out, "dice range [");
                push_i64(&mut out, *min);
                push_str(&mut out, ", ");
                push_i64(&mut out, *max);
                push_str(&mut out, "] includes negative values");
            },
            EnvelopeError::TooWide { width, max } => {
                push_str(&mut out, "envelope too wide: ");
                push_i64(&mut out, *width);
                push_str(&mut out, " > ");
                push_i64(&mut out, *max);
            },
        }
        out
    }
}

} // verus!
