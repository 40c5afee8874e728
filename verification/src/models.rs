//! The table model: tables, result entries, chain references, manifests
//! and roll results.

use vstd::prelude::*;

verus! {

/// A reference from a result entry to another table, optionally naming
/// raw die values that force the referenced table to roll again.
#[derive(Debug, Clone, PartialEq)]
pub enum ChainRef {
    Simple(String),
    Modified { table: String, reroll: Vec<u32> },
}

impl ChainRef {
    pub open spec fn spec_table_id(&self) -> Seq<char> {
        match self {
            ChainRef::Simple(id) => id@,
            ChainRef::Modified { table, .. } => table@,
        }
    }

    pub open spec fn spec_reroll(&self) -> Seq<u32> {
        match self {
            ChainRef::Simple(_) => Seq::empty(),
            ChainRef::Modified { reroll, .. } => reroll@,
        }
    }

    /// The referenced table id, whichever form the reference takes.
    pub fn table_id(&self) -> (r: &str)
        ensures
            r@ == self.spec_table_id(),
    {
        match self {
            ChainRef::Simple(id) => id.as_str(),
            ChainRef::Modified { table, .. } => table.as_str(),
        }
    }

    /// The raw die values that force a reroll; empty for a plain reference.
    pub fn reroll_values(&self) -> (r: &[u32])
        ensures
            r@ == self.spec_reroll(),
    {
        match self {
            ChainRef::Simple(_) => &[],
            ChainRef::Modified { reroll, .. } => reroll.as_slice(),
        }
    }
}

/// A named value declared by a result entry (`let:` in a table file).
#[derive(Debug, Clone, PartialEq)]
pub struct ResultBinding {
    pub name: String,
    pub value: String,
}

/// One row of a simple table: the inclusive range `min..=max` it covers,
/// its text, the tables it chains to and its declared bindings.
#[derive(Debug, Clone, PartialEq)]
pub struct ResultEntry {
    pub min: i32,
    pub max: i32,
    pub text: Option<String>,
    pub chain: Option<Vec<ChainRef>>,
    pub bindings: Vec<ResultBinding>,
}

/// The range of modifiers a simple table accepts, as `[min, max]`.
#[derive(Debug, Clone, Copy, PartialEq, Eq)]
pub struct ModifierRange {
    pub min: i32,
    pub max: i32,
}

impl From<[i32; 2]> for ModifierRange {
    /// A modifier range from its two-element sequence form `[min, max]`.
    fn from(v: [i32; 2]) -> (r: ModifierRange) {
        ModifierRange { min: v[0], max: v[1] }
    }
}

impl vstd::std_specs::convert::FromSpecImpl<[i32; 2]> for ModifierRange {
    open spec fn obeys_from_spec() -> bool {
        true
    }

    open spec fn from_spec(v: [i32; 2]) -> ModifierRange {
        ModifierRange { min: v[0], max: v[1] }
    }
}

impl From<ModifierRange> for [i32; 2] {
    /// The two-element sequence form `[min, max]` of a modifier range.
    fn from(m: ModifierRange) -> (r: [i32; 2]) {
        [m.min, m.max]
    }
}

impl vstd::std_specs::convert::FromSpecImpl<ModifierRange> for [i32; 2] {
    open spec fn obeys_from_spec() -> bool {
        true
    }

    open spec fn from_spec(m: ModifierRange) -> [i32; 2] {
        [m.min, m.max]
    }
}

/// A random table: either a simple table rolled with a dice expression,
/// or a compound table that rolls each of its sub-tables.
#[derive(Debug, Clone, PartialEq)]
pub enum Table {
    Simple {
        id: String,
        name: String,
        tags: Vec<String>,
        notes: Vec<String>,
        roll: String,
        modifier_range: Option<ModifierRange>,
        results: Vec<ResultEntry>,
    },
    Compound {
        id: String,
        name: String,
        tags: Vec<String>,
        notes: Vec<String>,
        tables: Vec<String>,
    },
}

impl Table {
    pub open spec fn spec_id(&self) -> Seq<char> {
        match self {
            Table::Simple { id, .. } => id@,
            Table::Compound { id, .. } => id@,
        }
    }

    pub open spec fn spec_name(&self) -> Seq<char> {
        match self {
            Table::Simple { name, .. } => name@,
            Table::Compound { name, .. } => name@,
        }
    }

    pub open spec fn spec_tags(&self) -> Seq<String> {
        match self {
            Table::Simple { tags, .. } => tags@,
            Table::Compound { tags, .. } => tags@,
        }
    }

    /// The table's bare id (the file stem it was loaded from).
    pub fn id(&self) -> (r: &str)
        ensures
            r@ == self.spec_id(),
    {
        match self {
            Table::Simple { id, .. } => id.as_str(),
            Table::Compound { id, .. } => id.as_str(),
        }
    }

    /// The table's display name.
    pub fn name(&self) -> (r: &str)
        ensures
            r@ == self.spec_name(),
    {
        match self {
            Table::Simple { name, .. } => name.as_str(),
            Table::Compound { name, .. } => name.as_str(),
        }
    }

    /// The table's tags, in declaration order.
    pub fn tags(&self) -> (r: &[String])
        ensures
            r@ == self.spec_tags(),
    {
        match self {
            Table::Simple { tags, .. } => tags.as_slice(),
            Table::Compound { tags, .. } => tags.as_slice(),
        }
    }
}

/// A `directories:` entry of a manifest.
#[derive(Debug, Clone, PartialEq)]
pub struct DirectoryEntry {
    pub path: String,
    pub namespace: String,
}

/// A `files:` entry of a manifest.
#[derive(Debug, Clone, PartialEq)]
pub struct FileEntry {
    pub path: String,
    pub namespace: String,
}

/// A collection manifest.
#[derive(Debug, Clone, PartialEq)]
pub struct Manifest {
    pub name: String,
    pub version: String,
    pub namespace: String,
    pub author: Option<String>,
    pub min_tool_version: Option<String>,
    pub directories: Vec<DirectoryEntry>,
    pub files: Vec<FileEntry>,
    pub base_path: String,
}

/// The outcome of rolling a table: the table's name, the lookup value
/// (absent for compound tables), the resulting text and the results of
/// the chained or compound sub-rolls.
#[derive(Debug)]
pub struct RollResult {
    pub table_name: String,
    pub roll: Option<i32>,
    pub text: Option<String>,
    pub children: Vec<RollResult>,
}

/// A table file found in a collection: where it is, the namespace its
/// directory maps to, its file stem and its contents.
#[derive(Debug, Clone, PartialEq)]
pub struct CollectionFile {
    pub path: String,
    pub namespace: String,
    pub stem: String,
    pub contents: String,
}

} // verus!
