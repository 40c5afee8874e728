//! Error types for validation, loading and rolling.
//!
//! Messages from outside parsers (YAML, file reading, dice notation) are
//! carried as the text those parsers produced.

use vstd::prelude::*;
use crate::text::{decimal, push_i64, push_str};

verus! {

/// Any error the library reports.
#[derive(Debug)]
pub enum Error {
    Validation(ValidationError),
    Load(LoadError),
    Roll(RollError),
    Yaml(String),
    Io(String),
    Dice(String),
}

/// A table, entry, namespace or reference that breaks a collection rule.
#[derive(Debug, Clone, PartialEq)]
pub enum ValidationError {
    RangeReversed { table: String, min: i32, max: i32 },
    RangeGap { table: String, missing: Vec<i32> },
    RangeOverlap { table: String, overlapping: Vec<i32> },
    InvalidDiceExpression { table: String, expr: String, reason: String },
    UnsupportedDiceExpression { expr: String, reason: String },
    InvalidNamespace { namespace: String, reason: String },
    DirectoryNotFound { path: String },
    FileEntryNotFound { path: String },
    FileEntryNotAFile { path: String },
    FileEntryInvalidExtension { path: String },
    UnresolvedChain { table: String, reference: String },
    UnresolvedCompoundRef { table: String, reference: String },
    DuplicateId { id: String },
    IdFilenameMismatch { id: String, filename: String, path: String },
    EntryOutOfRange { table: String, entry_min: i32, entry_max: i32, dice_min: i32, dice_max: i32 },
    ModifierRangeReversed { table: String, min: i32, max: i32 },
    ModifierRangeTooWide { table: String, width: i64, max: i64 },
    DiceRangeTooWide { table: String, width: i64, max: i64 },
    ModifierUnsupportedForDigitDice { table: String, expr: String },
}

/// A collection that could not be read.
#[derive(Debug)]
pub enum LoadError {
    ManifestNotFound { path: String },
    FileRead { path: String, reason: String },
    InvalidFormat { path: String, reason: String },
    Multiple { errors: Vec<Error> },
}

/// A roll that could not be completed.
#[derive(Debug, Clone, PartialEq)]
pub enum RollError {
    TableNotFound { id: String },
    RollOutOfRange { table: String, value: i64 },
    ChainDepthExceeded { table: String, limit: usize },
    NegativeRoll { value: i64 },
    DiceEvaluation { table: String, expr: String, reason: String },
    ModifierNotSupported { table: String },
    DirectValueNotSupported { table: String },
    RerollExhausted { table: String, attempts: usize, reroll_values: Vec<u32> },
}

/// A roll error with its texts taken as character sequences.
pub enum Fault {
    TableNotFound { id: Seq<char> },
    RollOutOfRange { table: Seq<char>, value: i64 },
    ChainDepthExceeded { table: Seq<char>, limit: usize },
    NegativeRoll { value: i64 },
    DiceEvaluation { table: Seq<char>, expr: Seq<char>, reason: Seq<char> },
    ModifierNotSupported { table: Seq<char> },
    DirectValueNotSupported { table: Seq<char> },
    RerollExhausted { table: Seq<char>, attempts: usize, reroll_values: Seq<u32> },
}

impl View for RollError {
    type V = Fault;

    open spec fn view(&self) -> Fault {
        match self {
            RollError::TableNotFound { id } => Fault::TableNotFound { id: id@ },
            RollError::RollOutOfRange { table, value } => Fault::RollOutOfRange {
                table: table@,
                value: *value,
            },
            RollError::ChainDepthExceeded { table, limit } => Fault::ChainDepthExceeded {
                table: table@,
                limit: *limit,
            },
            RollError::NegativeRoll { value } => Fault::NegativeRoll { value: *value },
            RollError::DiceEvaluation { table, expr, reason } => Fault::DiceEvaluation {
                table: table@,
                expr: expr@,
                reason: reason@,
            },
            RollError::ModifierNotSupported { table } => Fault::ModifierNotSupported {
                table: table@,
            },
            RollError::DirectValueNotSupported { table } => Fault::DirectValueNotSupported {
                table: table@,
            },
            RollError::RerollExhausted { table, attempts, reroll_values } => Fault::RerollExhausted {
                table: table@,
                attempts: *attempts,
                reroll_values: reroll_values@,
            },
        }
    }
}

/// `vals` written as a list: `[1, 2, 3]`.
pub open spec fn list_text(vals: Seq<int>) -> Seq<char>
    decreases vals.len(),
{
    if vals.len() == 0 {
        "[]"@
    } else {
        list_open(vals) + "]"@
    }
}

/// `vals` written as an unclosed list: `[1, 2, 3`.
pub open spec fn list_open(vals: Seq<int>) -> Seq<char>
    decreases vals.len(),
{
    if vals.len() == 0 {
        "["@
    } else if vals.len() == 1 {
        "["@ + decimal(vals[0])
    } else {
        list_open(vals.drop_last()) + ", "@ + decimal(vals.last())
    }
}

pub open spec fn ints(vals: Seq<i32>) -> Seq<int> {
    vals.map_values(|v: i32| v as int)
}

pub open spec fn uints(vals: Seq<u32>) -> Seq<int> {
    vals.map_values(|v: u32| v as int)
}

fn push_list(out: &mut String, vals: &[i32])
    ensures
        final(out)@ == old(out)@ + list_text(ints(vals@)),
{
    if vals.len() == 0 {
        push_str(out, "[]");
        return;
    }
    let ghost start = out@;
    push_str(out, "[");
    push_i64(out, vals[0] as i64);
    let mut i: usize = 1;
    assert(ints(vals@).take(1).len() == 1);
    assert(out@ =~= start + list_open(ints(vals@).take(1)));
    while i < vals.len()
        invariant
            1 <= i <= vals@.len(),
            out@ == start + list_open(ints(vals@).take(i as int)),
        decreases vals@.len() - i,
    {
        push_str(out, ", ");
        push_i64(out, vals[i] as i64);
        assert(ints(vals@).take(i + 1).drop_last() =~= ints(vals@).take(i as int));
        i = i + 1;
        assert(out@ =~= start + list_open(ints(vals@).take(i as int)));
    }
    assert(ints(vals@).take(vals@.len() as int) =~= ints(vals@));
    push_str(out, "]");
}

fn push_ulist(out: &mut String, vals: &[u32])
    ensures
        final(out)@ == old(out)@ + list_text(uints(vals@)),
{
    if vals.len() == 0 {
        push_str(out, "[]");
        return;
    }
    let ghost start = out@;
    push_str(out, "[");
    push_i64(out, vals[0] as i64);
    let mut i: usize = 1;
    assert(uints(vals@).take(1).len() == 1);
    assert(out@ =~= start + list_open(uints(vals@).take(1)));
    while i < vals.len()
        invariant
            1 <= i <= vals@.len(),
            out@ == start + list_open(uints(vals@).take(i as int)),
        decreases vals@.len() - i,
    {
        push_str(out, ", ");
        push_i64(out, vals[i] as i64);
        assert(uints(vals@).take(i + 1).drop_last() =~= uints(vals@).take(i as int));
        i = i + 1;
        assert(out@ =~= start + list_open(uints(vals@).take(i as int)));
    }
    assert(uints(vals@).take(vals@.len() as int) =~= uints(vals@));
    push_str(out, "]");
}

/// The message of a validation error.
pub open spec fn validation_text(e: ValidationError) -> Seq<char> {
    match e {
        ValidationError::RangeReversed { table, min, max } => "range reversed: min "@ + decimal(
            min as int,
        ) + " > max "@ + decimal(max as int) + " in table '"@ + table@ + "'"@,
        ValidationError::RangeGap { table, missing } => "range gap in table '"@ + table@
            + "': missing values "@ + list_text(ints(missing@)),
        ValidationError::RangeOverlap { table, overlapping } => "range overlap in table '"@
            + table@ + "': values "@ + list_text(ints(overlapping@)) + " covered multiple times"@,
        ValidationError::InvalidDiceExpression { table, expr, reason } => "invalid dice expression '"@
            + expr@ + "' in table '"@ + table@ + "': "@ + reason@,
        ValidationError::UnsupportedDiceExpression { expr, reason } => "unsupported dice expression '"@
            + expr@ + "': "@ + reason@,
        ValidationError::InvalidNamespace { namespace, reason } => "invalid namespace '"@
            + namespace@ + "': "@ + reason@,
        ValidationError::DirectoryNotFound { path } => "directory not found: "@ + path@,
        ValidationError::FileEntryNotFound { path } => "file entry not found: "@ + path@,
        ValidationError::FileEntryNotAFile { path } => "file entry is not a file: "@ + path@,
        ValidationError::FileEntryInvalidExtension { path } =>
            "file entry has an invalid extension (expected .yaml or .yml): "@ + path@,
        ValidationError::UnresolvedChain { table, reference } => "unresolved chain reference '"@
            + reference@ + "' in table '"@ + table@ + "'"@,
        ValidationError::UnresolvedCompoundRef { table, reference } =>
            "unresolved compound table reference '"@ + reference@ + "' in table '"@ + table@
            + "'"@,
        ValidationError::DuplicateId { id } => "duplicate table ID '"@ + id@ + "'"@,
        ValidationError::IdFilenameMismatch { id, filename, path } => "table id '"@ + id@
            + "' does not match filename '"@ + filename@ + "' ("@ + path@ + ")"@,
        ValidationError::EntryOutOfRange { table, entry_min, entry_max, dice_min, dice_max } =>
            "entry "@ + decimal(entry_min as int) + "-"@ + decimal(entry_max as int)
            + " in table '"@ + table@ + "' is outside the dice range "@ + decimal(
            dice_min as int,
        ) + "-"@ + decimal(dice_max as int),
        ValidationError::ModifierRangeReversed { table, min, max } =>
            "modifier range reversed: min "@ + decimal(min as int) + " > max "@ + decimal(
                max as int,
            ) + " in table '"@ + table@ + "'"@,
        ValidationError::ModifierRangeTooWide { table, width, max } =>
            "modifier range envelope too wide in table '"@ + table@ + "': "@ + decimal(
                width as int,
            ) + " > "@ + decimal(max as int),
        ValidationError::DiceRangeTooWide { table, width, max } => "dice range too wide in table '"@
            + table@ + "': "@ + decimal(width as int) + " > "@ + decimal(max as int),
        ValidationError::ModifierUnsupportedForDigitDice { table, expr } =>
            "modifier_range unsupported for digit dice '"@ + expr@ + "' in table '"@ + table@
            + "'"@,
    }
}

/// The message of a roll error.
pub open spec fn roll_text(e: RollError) -> Seq<char> {
    match e {
        RollError::TableNotFound { id } => "table not found: '"@ + id@ + "'"@,
        RollError::RollOutOfRange { table, value } => "roll value "@ + decimal(value as int)
            + " out of range for table '"@ + table@ + "'"@,
        RollError::ChainDepthExceeded { table, limit } => "chain depth limit ("@ + decimal(
            limit as int,
        ) + ") exceeded at table '"@ + table@ + "'"@,
        RollError::NegativeRoll { value } => "negative dice result ("@ + decimal(value as int)
            + ") not supported"@,
        RollError::DiceEvaluation { table, expr, reason } => "dice evaluation failed for '"@
            + expr@ + "' in table '"@ + table@ + "': "@ + reason@,
        RollError::ModifierNotSupported { table } => "table '"@ + table@
            + "' does not declare a modifier_range, so it takes no modifier"@,
        RollError::DirectValueNotSupported { table } => "compound table '"@ + table@
            + "' cannot be looked up by value"@,
        RollError::RerollExhausted { table, attempts, reroll_values } =>
            "gave up rerolling table '"@ + table@ + "' after "@ + decimal(attempts as int)
            + " attempts (reroll values "@ + list_text(uints(reroll_values@)) + ")"@,
    }
}

/// The message of any error of the library.
pub open spec fn error_text(e: Error) -> Seq<char>
    decreases e,
{
    match e {
        Error::Validation(v) => "validation error: "@ + validation_text(v),
        Error::Load(l) => "loading error: "@ + match l {
            LoadError::ManifestNotFound { path } => "manifest not found at "@ + path@,
            LoadError::FileRead { path, reason } => "failed to read file "@ + path@ + ": "@
                + reason@,
            LoadError::InvalidFormat { path, reason } => "invalid format in "@ + path@ + ": "@
                + reason@,
            LoadError::Multiple { errors } => "multiple errors during load:"@ + errors_text(
                errors@,
            ),
        },
        Error::Roll(r) => "roll error: "@ + roll_text(r),
        Error::Yaml(m) => "YAML parse error: "@ + m@,
        Error::Io(m) => "IO error: "@ + m@,
        Error::Dice(m) => "dice error: "@ + m@,
    }
}

/// One line `\n  - message` per error.
pub open spec fn errors_text(errs: Seq<Error>) -> Seq<char>
    decreases errs,
{
    if errs.len() == 0 {
        Seq::empty()
    } else {
        errors_text(errs.drop_last()) + "\n  - "@ + error_text(errs.last())
    }
}

impl ValidationError {
    /// The error's message.
    pub fn message(&self) -> (r: String)
        ensures
            r@ == validation_text(*self),
    {
        let mut out = String::new();
        match self {
            ValidationError::RangeReversed { table, min, max } => {
                push_str(&mut out, "range reversed: min ");
                push_i64(&mut out, *min as i64);
                push_str(&mut out, " > max ");
                push_i64(&mut out, *max as i64);
                push_str(&mut out, " in table '");
                push_str(&mut out, table.as_str());
                push_str(&mut out, "'");
            },
            ValidationError::RangeGap { table, missing } => {
                push_str(&mut out, "range gap in table '");
                push_str(&mut out, table.as_str());
                push_str(&mut out, "': missing values ");
                push_list(&mut out, missing.as_slice());
            },
            ValidationError::RangeOverlap { table, overlapping } => {
                push_str(&mut out, "range overlap in table '");
                push_str(&mut out, table.as_str());
                push_str(&mut out, "': values ");
                push_list(&mut out, overlapping.as_slice());
                push_str(&mut out, " covered multiple times");
            },
            ValidationError::InvalidDiceExpression { table, expr, reason } => {
                push_str(&mut out, "invalid dice expression '");
                push_str(&mut out, expr.as_str());
                push_str(&mut out, "' in table '");
                push_str(&mut out, table.as_str());
                push_str(&mut out, "': ");
                push_str(&mut out, reason.as_str());
            },
            ValidationError::UnsupportedDiceExpression { expr, reason } => {
                push_str(&mut out, "unsupported dice expression '");
                push_str(&mut out, expr.as_str());
                push_str(&mut out, "': ");
                push_str(&mut out, reason.as_str());
            },
            ValidationError::InvalidNamespace { namespace, reason } => {
                push_str(&mut out, "invalid namespace '");
                push_str(&mut out, namespace.as_str());
                push_str(&mut out, "': ");
                push_str(&mut out, reason.as_str());
            },
            ValidationError::DirectoryNotFound { path } => {
                push_str(&mut out, "directory not found: ");
                push_str(&mut out, path.as_str());
            },
            ValidationError::FileEntryNotFound { path } => {
                push_str(&mut out, "file entry not found: ");
                push_str(&mut out, path.as_str());
            },
            ValidationError::FileEntryNotAFile { path } => {
                push_str(&mut out, "file entry is not a file: ");
                push_str(&mut out, path.as_str());
            },
            ValidationError::FileEntryInvalidExtension { path } => {
                push_str(&mut out, "file entry has an invalid extension (expected .yaml or .yml): ");
                push_str(&mut out, path.as_str());
            },
            ValidationError::UnresolvedChain { table, reference } => {
                push_str(&mut out, "unresolved chain reference '");
                push_str(&mut out, reference.as_str());
                push_str(&mut out, "' in table '");
                push_str(&mut out, table.as_str());
                push_str(&mut out, "'");
            },
            ValidationError::UnresolvedCompoundRef { table, reference } => {
                push_str(&mut out, "unresolved compound table reference '");
                push_str(&mut out, reference.as_str());
                push_str(&mut out, "' in table '");
                push_str(&mut out, table.as_str());
                push_str(&mut out, "'");
            },
            ValidationError::DuplicateId { id } => {
                push_str(&mut out, "duplicate table ID '");
                push_str(&mut out, id.as_str());
                push_str(&mut out, "'");
            },
            ValidationError::IdFilenameMismatch { id, filename, path } => {
                push_str(&mut out, "table id '");
                push_str(&mut out, id.as_str());
                push_str(&mut out, "' does not match filename '");
                push_str(&mut out, filename.as_str());
                push_str(&mut out, "' (");
                push_str(&mut out, path.as_str());
                push_str(&mut out, ")");
            },
            ValidationError::EntryOutOfRange { table, entry_min, entry_max, dice_min, dice_max } => {
                push_str(&mut out, "entry ");
                push_i64(&mut out, *entry_min as i64);
                push_str(&mut out, "-");
                push_i64(&mut out, *entry_max as i64);
                push_str(&mut out, " in table '");
                push_str(&mut out, table.as_str());
                push_str(&mut out, "' is outside the dice range ");
                push_i64(&mut out, *dice_min as i64);
                push_str(&mut out, "-");
                push_i64(&mut out, *dice_max as i64);
            },
            ValidationError::ModifierRangeReversed { table, min, max } => {
                push_str(&mut out, "modifier range reversed: min ");
                push_i64(&mut out, *min as i64);
                push_str(&mut out, " > max ");
                push_i64(&mut out, *max as i64);
                push_str(&mut out, " in table '");
                push_str(&mut out, table.as_str());
                push_str(&mut out, "'");
            },
            ValidationError::ModifierRangeTooWide { table, width, max } => {
                push_str(&mut out, "modifier range envelope too wide in table '");
                push_str(&mut out, table.as_str());
                push_str(&mut out, "': ");
                push_i64(&mut out, *width);
                push_str(&mut out, " > ");
                push_i64(&mut out, *max);
            },
            ValidationError::DiceRangeTooWide { table, width, max } => {
                push_str(&mut out, "dice range too wide in table '");
                push_str(&mut out, table.as_str());
                push_str(&mut out, "': ");
                push_i64(&mut out, *width);
                push_str(&mut out, " > ");
                push_i64(&mut out, *max);
            },
            ValidationError::ModifierUnsupportedForDigitDice { table, expr } => {
                push_str(&mut out, "modifier_range unsupported for digit dice '");
                push_str(&mut out, expr.as_str());
                push_str(&mut out, "' in table '");
                push_str(&mut out, table.as_str());
                push_str(&mut out, "'");
            },
        }
        assert(out@ =~= validation_text(*self));
        out
    }
}

impl RollError {
    /// The error's message.
    pub fn message(&self) -> (r: String)
        ensures
            r@ == roll_text(*self),
    {
        let mut out = String::new();
        match self {
            RollError::TableNotFound { id } => {
                push_str(&mut out, "table not found: '");
                push_str(&mut out, id.as_str());
                push_str(&mut out, "'");
            },
            RollError::RollOutOfRange { table, value } => {
                push_str(&mut out, "roll value ");
                push_i64(&mut out, *value);
                push_str(&mut out, " out of range for table '");
                push_str(&mut out, table.as_str());
                push_str(&mut out, "'");
            },
            RollError::ChainDepthExceeded { table, limit } => {
                push_str(&mut out, "chain depth limit (");
                crate::text::push_u64(&mut out, *limit as u64);
                push_str(&mut out, ") exceeded at table '");
                push_str(&mut out, table.as_str());
                push_str(&mut out, "'");
            },
            RollError::NegativeRoll { value } => {
                push_str(&mut out, "negative dice result (");
                push_i64(&mut out, *value);
                push_str(&mut out, ") not supported");
            },
            RollError::DiceEvaluation { table, expr, reason } => {
                push_str(&mut out, "dice evaluation failed for '");
                push_str(&mut out, expr.as_str());
                push_str(&mut out, "' in table '");
                push_str(&mut out, table.as_str());
                push_str(&mut out, "': ");
                push_str(&mut out, reason.as_str());
            },
            RollError::ModifierNotSupported { table } => {
                push_str(&mut out, "table '");
                push_str(&mut out, table.as_str());
                push_str(&mut out, "' does not declare a modifier_range, so it takes no modifier");
            },
            RollError::DirectValueNotSupported { table } => {
                push_str(&mut out, "compound table '");
                push_str(&mut out, table.as_str());
                push_str(&mut out, "' cannot be looked up by value");
            },
            RollError::RerollExhausted { table, attempts, reroll_values } => {
                push_str(&mut out, "gave up rerolling table '");
                push_str(&mut out, table.as_str());
                push_str(&mut out, "' after ");
                crate::text::push_u64(&mut out, *attempts as u64);
                push_str(&mut out, " attempts (reroll values ");
                push_ulist(&mut out, reroll_values.as_slice());
                push_str(&mut out, ")");
            },
        }
        assert(out@ =~= roll_text(*self));
        out
    }
}

impl Error {
    /// The error's message; a collection of errors lists each on a line
    /// of its own.
    pub fn message(&self) -> (r: String)
        ensures
            r@ == error_text(*self),
        decreases self,
    {
        let mut out = String::new();
        match self {
            Error::Validation(v) => {
                push_str(&mut out, "validation error: ");
                let m = v.message();
                push_str(&mut out, m.as_str());
            },
            Error::Load(l) => {
                push_str(&mut out, "loading error: ");
                match l {
                    LoadError::ManifestNotFound { path } => {
                        push_str(&mut out, "manifest not found at ");
                        push_str(&mut out, path.as_str());
                    },
                    LoadError::FileRead { path, reason } => {
                        push_str(&mut out, "failed to read file ");
                        push_str(&mut out, path.as_str());
                        push_str(&mut out, ": ");
                        push_str(&mut out, reason.as_str());
                    },
                    LoadError::InvalidFormat { path, reason } => {
                        push_str(&mut out, "invalid format in ");
                        push_str(&mut out, path.as_str());
                        push_str(&mut out, ": ");
                        push_str(&mut out, reason.as_str());
                    },
                    LoadError::Multiple { errors } => {
                        push_str(&mut out, "multiple errors during load:");
                        let ghost start = out@;
                        let mut i: usize = 0;
                        assert(errors@.take(0) =~= Seq::<Error>::empty());
                        assert(out@ =~= start + errors_text(errors@.take(0)));
                        while i < errors.len()
                            invariant
                                i <= errors@.len(),
                                *self == Error::Load(*l),
                                *l == (LoadError::Multiple { errors: *errors }),
                                out@ == start + errors_text(errors@.take(i as int)),
                            decreases errors@.len() - i,
                        {
                            push_str(&mut out, "\n  - ");
                            proof {
                                assert(decreases_to!(*self => (*self)->Load_0));
                                assert(decreases_to!(*l => (*l)->Multiple_errors));
                                assert(decreases_to!(*errors => errors@));
                                assert(decreases_to!(errors@ => errors@[i as int]));
                                assert(decreases_to!(*self => errors@[i as int]));
                            }
                            let m = errors[i].message();
                            push_str(&mut out, m.as_str());
                            assert(errors@.take(i + 1).drop_last() =~= errors@.take(i as int));
                            i = i + 1;
                            assert(out@ =~= start + errors_text(errors@.take(i as int)));
                        }
                        assert(errors@.take(errors@.len() as int) =~= errors@);
                    },
                }
            },
            Error::Roll(r) => {
                push_str(&mut out, "roll error: ");
                let m = r.message();
                push_str(&mut out, m.as_str());
            },
            Error::Yaml(m) => {
                push_str(&mut out, "YAML parse error: ");
                push_str(&mut out, m.as_str());
            },
            Error::Io(m) => {
                push_str(&mut out, "IO error: ");
                push_str(&mut out, m.as_str());
            },
            Error::Dice(m) => {
                push_str(&mut out, "dice error: ");
                push_str(&mut out, m.as_str());
            },
        }
        assert(out@ =~= error_text(*self));
        out
    }
}

} // verus!
