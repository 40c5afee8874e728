//! The in-memory table store, keyed by fully qualified id, with
//! relative-first reference resolution.

use vstd::prelude::*;
use crate::error::ValidationError;
use crate::models::Table;
use crate::text::{chars_of, chars_equal, chars_end_with, is_suffix_of, push_str};

verus! {

/// No fully qualified id occurs twice.
pub open spec fn keys_distinct(s: Seq<(Seq<char>, Table)>) -> bool {
    forall|i: int, j: int| 0 <= i < s.len() && 0 <= j < s.len() && i != j ==> s[i].0 != s[j].0
}

/// Some entry is registered under `k`.
pub open spec fn has_key(s: Seq<(Seq<char>, Table)>, k: Seq<char>) -> bool {
    exists|i: int| 0 <= i < s.len() && #[trigger] s[i].0 == k
}

/// The table registered under `k`, if any.
pub open spec fn lookup(s: Seq<(Seq<char>, Table)>, k: Seq<char>) -> Option<Table> {
    if has_key(s, k) {
        Some(s[choose|i: int| 0 <= i < s.len() && #[trigger] s[i].0 == k].1)
    } else {
        None
    }
}

/// The number of registered ids that end with `suffix`.
pub open spec fn count_suffix_matches(s: Seq<(Seq<char>, Table)>, suffix: Seq<char>) -> nat
    decreases s.len(),
{
    if s.len() == 0 {
        0
    } else {
        count_suffix_matches(s.drop_last(), suffix) + if is_suffix_of(suffix, s.last().0) {
            1nat
        } else {
            0nat
        }
    }
}

/// The only registered entry whose id ends with `suffix`, when exactly one does.
pub open spec fn unique_suffix_match(s: Seq<(Seq<char>, Table)>, suffix: Seq<char>) -> Option<
    (Seq<char>, Table),
> {
    if count_suffix_matches(s, suffix) == 1 {
        Some(s[choose|i: int| 0 <= i < s.len() && is_suffix_of(suffix, #[trigger] s[i].0)])
    } else {
        None
    }
}

/// Three-step resolution of `reference` seen from `namespace`: the
/// relative id `namespace.reference`, then `reference` as a fully
/// qualified id, then the single registered id ending in `.reference`.
pub open spec fn spec_resolve(
    s: Seq<(Seq<char>, Table)>,
    reference: Seq<char>,
    namespace: Seq<char>,
) -> Option<(Seq<char>, Table)> {
    let relative = namespace + seq!['.'] + reference;
    if has_key(s, relative) {
        Some((relative, lookup(s, relative).unwrap()))
    } else if has_key(s, reference) {
        Some((reference, lookup(s, reference).unwrap()))
    } else {
        unique_suffix_match(s, seq!['.'] + reference)
    }
}

proof fn lemma_count_positive(s: Seq<(Seq<char>, Table)>, suffix: Seq<char>, i: int)
    requires
        0 <= i < s.len(),
        is_suffix_of(suffix, s[i].0),
    ensures
        count_suffix_matches(s, suffix) >= 1,
    decreases s.len(),
{
    if i < s.len() - 1 {
        lemma_count_positive(s.drop_last(), suffix, i);
    }
}

proof fn lemma_single_match(s: Seq<(Seq<char>, Table)>, suffix: Seq<char>, i: int, j: int)
    requires
        count_suffix_matches(s, suffix) == 1,
        0 <= i < s.len(),
        0 <= j < s.len(),
        is_suffix_of(suffix, s[i].0),
        is_suffix_of(suffix, s[j].0),
    ensures
        i == j,
    decreases s.len(),
{
    let n = s.len() - 1;
    if i == n && j != n {
        lemma_count_positive(s.drop_last(), suffix, j);
    } else if j == n && i != n {
        lemma_count_positive(s.drop_last(), suffix, i);
    } else if i != n && j != n {
        if is_suffix_of(suffix, s.last().0) {
            lemma_count_positive(s.drop_last(), suffix, i);
        } else {
            lemma_single_match(s.drop_last(), suffix, i, j);
        }
    }
}

proof fn lemma_lookup_at(s: Seq<(Seq<char>, Table)>, i: int)
    requires
        keys_distinct(s),
        0 <= i < s.len(),
    ensures
        has_key(s, s[i].0),
        lookup(s, s[i].0) == Some(s[i].1),
{
    let k = s[i].0;
    assert(s[i].0 == k);
    let j = choose|j: int| 0 <= j < s.len() && #[trigger] s[j].0 == k;
    assert(j == i);
}

/// Tables keyed by fully qualified id, in registration order.
#[derive(Debug)]
pub struct Registry {
    tables: Vec<(String, Table)>,
}

impl View for Registry {
    type V = Seq<(Seq<char>, Table)>;

    closed spec fn view(&self) -> Seq<(Seq<char>, Table)> {
        self.tables@.map_values(|e: (String, Table)| (e.0@, e.1))
    }
}

impl Default for Registry {
    /// An empty registry.
    fn default() -> (r: Registry)
        ensures
            r@ == Seq::<(Seq<char>, Table)>::empty(),
            r.wf(),
    {
        Registry::new()
    }
}

impl Registry {
    /// Every fully qualified id is registered once.
    pub open spec fn wf(&self) -> bool {
        keys_distinct(self@)
    }

    /// A registry never holds an id twice.
    #[verifier::type_invariant]
    pub open spec fn distinct_ids(self) -> bool {
        keys_distinct(self@)
    }

    /// An empty registry.
    pub fn new() -> (r: Registry)
        ensures
            r@ == Seq::<(Seq<char>, Table)>::empty(),
            r.wf(),
    {
        let r = Registry { tables: Vec::new() };
        assert(r@ =~= Seq::<(Seq<char>, Table)>::empty());
        r
    }

    fn find_index(&self, key: &[char]) -> (r: Option<usize>)
        requires
            self.wf(),
        ensures
            match r {
                Some(i) => i < self@.len() && self@[i as int].0 == key@,
                None => !has_key(self@, key@),
            },
    {
        let mut i: usize = 0;
        while i < self.tables.len()
            invariant
                i <= self.tables@.len(),
                forall|k: int| 0 <= k < i ==> self@[k].0 != key@,
            decreases self.tables@.len() - i,
        {
            let kv = chars_of(self.tables[i].0.as_str());
            if chars_equal(kv.as_slice(), key) {
                return Some(i);
            }
            i = i + 1;
        }
        None
    }

    /// Register `table` under `fqid`; refused when the id is taken.
    pub fn register(&mut self, fqid: String, table: Table) -> (r: Result<(), ValidationError>)
        ensures
            final(self).wf(),
            has_key(old(self)@, fqid@) ==> {
                &&& r matches Err(ValidationError::DuplicateId { id }) && id@ == fqid@
                &&& final(self)@ == old(self)@
            },
            !has_key(old(self)@, fqid@) ==> {
                &&& r is Ok
                &&& final(self)@ == old(self)@.push((fqid@, table))
            },
    {
        proof {
            use_type_invariant(&*self);
        }
        let key = chars_of(fqid.as_str());
        let r = match self.find_index(key.as_slice()) {
            Some(_) => Err(ValidationError::DuplicateId { id: fqid }),
            None => {
                let ghost before = self@;
                let mut tables: Vec<(String, Table)> = Vec::new();
                std::mem::swap(&mut tables, &mut self.tables);
                tables.push((fqid, table));
                let ghost after = tables@.map_values(|e: (String, Table)| (e.0@, e.1));
                assert(after =~= before.push((key@, table)));
                self.tables = tables;
                Ok(())
            },
        };
        proof {
            use_type_invariant(&*self);
        }
        r
    }

    /// The table registered under exactly `fqid`.
    pub fn get(&self, fqid: &str) -> (r: Option<&Table>)
        ensures
            r matches Some(t) ==> lookup(self@, fqid@) == Some(*t),
            r is None ==> lookup(self@, fqid@) is None,
    {
        proof {
            use_type_invariant(self);
        }
        let key = chars_of(fqid);
        match self.find_index(key.as_slice()) {
            Some(i) => {
                proof {
                    lemma_lookup_at(self@, i as int);
                }
                Some(&self.tables[i].1)
            },
            None => None,
        }
    }

    fn get_entry(&self, key: &[char]) -> (r: Option<(&str, &Table)>)
        requires
            self.wf(),
        ensures
            r matches Some((k, t)) ==> k@ == key@ && lookup(self@, key@) == Some(*t),
            r is None ==> !has_key(self@, key@),
    {
        match self.find_index(key) {
            Some(i) => {
                proof {
                    lemma_lookup_at(self@, i as int);
                }
                Some((self.tables[i].0.as_str(), &self.tables[i].1))
            },
            None => None,
        }
    }

    /// Resolve a reference seen from `current_namespace`: first as the
    /// relative id `current_namespace.reference`, then as a fully
    /// qualified id, then as the bare id of exactly one registered table.
    pub fn resolve(&self, reference: &str, current_namespace: &str) -> (r: Option<(&str, &Table)>)
        ensures
            match r {
                Some((k, t)) => spec_resolve(self@, reference@, current_namespace@) == Some(
                    (k@, *t),
                ),
                None => spec_resolve(self@, reference@, current_namespace@) is None,
            },
    {
        proof {
            use_type_invariant(self);
        }
        let mut relative = String::new();
        push_str(&mut relative, current_namespace);
        push_str(&mut relative, ".");
        push_str(&mut relative, reference);
        proof {
            reveal_strlit(".");
            assert(relative@ =~= current_namespace@ + seq!['.'] + reference@);
        }
        let rel = chars_of(relative.as_str());
        if let Some(found) = self.get_entry(rel.as_slice()) {
            return Some(found);
        }
        let refv = chars_of(reference);
        if let Some(found) = self.get_entry(refv.as_slice()) {
            return Some(found);
        }
        let mut suffix: Vec<char> = Vec::new();
        suffix.push('.');
        let mut k: usize = 0;
        while k < refv.len()
            invariant
                k <= refv@.len(),
                suffix@ == seq!['.'] + refv@.take(k as int),
            decreases refv@.len() - k,
        {
            suffix.push(refv[k]);
            k = k + 1;
            assert(suffix@ =~= seq!['.'] + refv@.take(k as int));
        }
        assert(refv@.take(refv@.len() as int) =~= refv@);
        let mut count: usize = 0;
        let mut last: usize = 0;
        let mut i: usize = 0;
        while i < self.tables.len()
            invariant
                self.wf(),
                i <= self.tables@.len(),
                self@.len() == self.tables@.len(),
                count <= i,
                count == count_suffix_matches(self@.take(i as int), suffix@),
                count >= 1 ==> last < i && is_suffix_of(suffix@, self@[last as int].0),
            decreases self.tables@.len() - i,
        {
            let kv = chars_of(self.tables[i].0.as_str());
            let m = chars_end_with(kv.as_slice(), suffix.as_slice());
            assert(self@.take(i + 1).drop_last() =~= self@.take(i as int));
            if m {
                count = count + 1;
                last = i;
            }
            i = i + 1;
        }
        assert(self@.take(self@.len() as int) =~= self@);
        if count == 1 {
            proof {
                let s = self@;
                let j = choose|j: int| 0 <= j < s.len() && is_suffix_of(suffix@, #[trigger] s[j].0);
                assert(is_suffix_of(suffix@, s[last as int].0));
                lemma_single_match(s, suffix@, j, last as int);
            }
            Some((self.tables[last].0.as_str(), &self.tables[last].1))
        } else {
            None
        }
    }

    /// Every registered table with its fully qualified id, in
    /// registration order.
    pub fn all_tables(&self) -> (r: Vec<(&str, &Table)>)
        ensures
            r@.len() == self@.len(),
            forall|i: int| 0 <= i < r@.len() ==> r@[i].0@ == self@[i].0 && *r@[i].1 == self@[i].1,
    {
        let mut out: Vec<(&str, &Table)> = Vec::new();
        let mut i: usize = 0;
        while i < self.tables.len()
            invariant
                i <= self.tables@.len(),
                self@.len() == self.tables@.len(),
                out@.len() == i,
                forall|k: int| 0 <= k < i ==> out@[k].0@ == self@[k].0 && *out@[k].1 == self@[k].1,
            decreases self.tables@.len() - i,
        {
            out.push((self.tables[i].0.as_str(), &self.tables[i].1));
            i = i + 1;
        }
        out
    }
}

/// Registering `t` under a fresh id `k` keeps the ids distinct; the
/// registry then finds `t` under `k`, and every other id as before.
pub proof fn lemma_register_then_get(
    reg: Seq<(Seq<char>, Table)>,
    k: Seq<char>,
    t: Table,
    other: Seq<char>,
)
    requires
        keys_distinct(reg),
        !has_key(reg, k),
    ensures
        keys_distinct(reg.push((k, t))),
        lookup(reg.push((k, t)), k) == Some(t),
        other != k ==> lookup(reg.push((k, t)), other) == lookup(reg, other),
{
    let r = reg.push((k, t));
    assert forall|i: int, j: int| 0 <= i < r.len() && 0 <= j < r.len() && i != j implies r[i].0 != r[j].0 by {
        if i == reg.len() {
            assert(reg[j].0 == r[j].0);
        } else if j == reg.len() {
            assert(reg[i].0 == r[i].0);
        } else {
            assert(r[i] == reg[i] && r[j] == reg[j]);
        }
    }
    lemma_lookup_at(r, reg.len() as int);
    if other != k {
        if has_key(reg, other) {
            let i = choose|i: int| 0 <= i < reg.len() && #[trigger] reg[i].0 == other;
            lemma_lookup_at(reg, i);
            assert(r[i] == reg[i]);
            lemma_lookup_at(r, i);
        } else {
            if has_key(r, other) {
                let i = choose|i: int| 0 <= i < r.len() && #[trigger] r[i].0 == other;
                assert(reg[i].0 == other);
            }
        }
    }
}

/// Resolution takes the relative id when it is registered, else the
/// reference itself as a fully qualified id, else the one registered id
/// ending in `.reference`, and nothing when that is ambiguous or absent;
/// whatever it finds is registered under the id it returns.
pub proof fn lemma_resolve_order(reg: Seq<(Seq<char>, Table)>, reference: Seq<char>, namespace: Seq<char>)
    requires
        keys_distinct(reg),
    ensures
        ({
            let relative = namespace + seq!['.'] + reference;
            let r = spec_resolve(reg, reference, namespace);
            &&& has_key(reg, relative) ==> r == Some((relative, lookup(reg, relative).unwrap()))
            &&& !has_key(reg, relative) && has_key(reg, reference) ==> r == Some(
                (reference, lookup(reg, reference).unwrap()),
            )
            &&& !has_key(reg, relative) && !has_key(reg, reference) && count_suffix_matches(
                reg,
                seq!['.'] + reference,
            ) != 1 ==> r is None
            &&& r matches Some(found) ==> lookup(reg, found.0) == Some(found.1) && is_suffix_of(
                reference,
                found.0,
            )
        }),
{
    let relative = namespace + seq!['.'] + reference;
    let suffix = seq!['.'] + reference;
    assert(is_suffix_of(reference, relative)) by {
        assert(relative.skip(relative.len() - reference.len()) =~= reference);
    }
    assert(is_suffix_of(reference, reference)) by {
        assert(reference.skip(0) =~= reference);
    }
    if !has_key(reg, relative) && !has_key(reg, reference) && count_suffix_matches(reg, suffix) == 1 {
        lemma_count_witness(reg, suffix);
        let i = choose|i: int| 0 <= i < reg.len() && is_suffix_of(suffix, #[trigger] reg[i].0);
        lemma_lookup_at(reg, i);
        let key = reg[i].0;
        assert(key.skip(key.len() - suffix.len()) == suffix);
        assert(key.skip(key.len() - reference.len()) =~= suffix.skip(1));
        assert(suffix.skip(1) =~= reference);
    }
}

/// Some id ends with `suffix` when any is counted.
pub proof fn lemma_count_witness(s: Seq<(Seq<char>, Table)>, suffix: Seq<char>)
    requires
        count_suffix_matches(s, suffix) > 0,
    ensures
        exists|i: int| 0 <= i < s.len() && is_suffix_of(suffix, #[trigger] s[i].0),
    decreases s.len(),
{
    if is_suffix_of(suffix, s.last().0) {
        assert(is_suffix_of(suffix, s[s.len() - 1].0));
    } else {
        lemma_count_witness(s.drop_last(), suffix);
        let i = choose|i: int| 0 <= i < s.drop_last().len() && is_suffix_of(
            suffix,
            #[trigger] s.drop_last()[i].0,
        );
        assert(s[i] == s.drop_last()[i]);
    }
}

} // verus!
