//! Fixing a collection's table files: every table's `id` is made to
//! match its file name, and references to an id that was corrected are
//! reported or rewritten.
//!
//! Files are worked on as YAML documents; reading, parsing, printing and
//! writing them happens around this module.

use vstd::prelude::*;
use crate::error::{Error, LoadError};
use crate::text::{push_str, str_equal};

verus! {

broadcast use vstd::string::group_string_axioms;

/// How to handle references to a corrected id.
#[derive(Debug, Clone, Copy, PartialEq, Eq, Structural)]
pub enum RefHandling {
    WarnOnly,
    Update,
}

/// A YAML document node.
#[derive(Debug, PartialEq)]
pub enum Yaml {
    Null,
    Bool(bool),
    /// A number, by its text.
    Number(String),
    Text(String),
    List(Vec<Yaml>),
    Mapping(Vec<(Yaml, Yaml)>),
    /// A tagged node: the tag and what it tags.
    Tagged(String, Box<Yaml>),
}

/// A YAML node as values.
pub enum YamlView {
    Null,
    Bool(bool),
    Number(Seq<char>),
    Text(Seq<char>),
    List(Seq<YamlView>),
    Mapping(Seq<(YamlView, YamlView)>),
    Tagged(Seq<char>, Box<YamlView>),
}

pub open spec fn yaml_view(y: Yaml) -> YamlView
    decreases y,
{
    match y {
        Yaml::Null => YamlView::Null,
        Yaml::Bool(b) => YamlView::Bool(b),
        Yaml::Number(n) => YamlView::Number(n@),
        Yaml::Text(s) => YamlView::Text(s@),
        Yaml::List(v) => YamlView::List(
            Seq::new(
                v@.len(),
                |i: int|
                    if 0 <= i < v@.len() {
                        proof {
                            assert(decreases_to!(y => v));
                            assert(decreases_to!(v => v@));
                            assert(decreases_to!(v@ => v@[i]));
                        }
                        yaml_view(v@[i])
                    } else {
                        YamlView::Null
                    },
            ),
        ),
        Yaml::Mapping(v) => YamlView::Mapping(
            Seq::new(
                v@.len(),
                |i: int|
                    if 0 <= i < v@.len() {
                        proof {
                            assert(decreases_to!(y => v));
                            assert(decreases_to!(v => v@));
                            assert(decreases_to!(v@ => v@[i]));
                            assert(decreases_to!(v@[i] => v@[i].0));
                            assert(decreases_to!(v@[i] => v@[i].1));
                        }
                        (yaml_view(v@[i].0), yaml_view(v@[i].1))
                    } else {
                        (YamlView::Null, YamlView::Null)
                    },
            ),
        ),
        Yaml::Tagged(t, b) => YamlView::Tagged(t@, Box::new(yaml_view(*b))),
    }
}

pub open spec fn list_view(v: Seq<Yaml>) -> Seq<YamlView> {
    Seq::new(v.len(), |i: int| yaml_view(v[i]))
}

pub open spec fn pairs_view(m: Seq<(Yaml, Yaml)>) -> Seq<(YamlView, YamlView)> {
    Seq::new(m.len(), |i: int| (yaml_view(m[i].0), yaml_view(m[i].1)))
}

pub proof fn lemma_list_view(v: Vec<Yaml>)
    ensures
        yaml_view(Yaml::List(v)) == YamlView::List(list_view(v@)),
{
    if let YamlView::List(s) = yaml_view(Yaml::List(v)) {
        assert(s =~= list_view(v@));
    }
}

pub proof fn lemma_pairs_view(m: Vec<(Yaml, Yaml)>)
    ensures
        yaml_view(Yaml::Mapping(m)) == YamlView::Mapping(pairs_view(m@)),
{
    if let YamlView::Mapping(s) = yaml_view(Yaml::Mapping(m)) {
        assert(s =~= pairs_view(m@));
    }
}

/// The node a chain of tags ends at.
pub open spec fn untag(v: YamlView) -> YamlView
    decreases v,
{
    match v {
        YamlView::Tagged(_, b) => untag(*b),
        _ => v,
    }
}

/// `v` with the node its tags end at replaced by `inner`.
pub open spec fn retag(v: YamlView, inner: YamlView) -> YamlView
    decreases v,
{
    match v {
        YamlView::Tagged(t, b) => YamlView::Tagged(t, Box::new(retag(*b, inner))),
        _ => inner,
    }
}

/// The first entry of mapping `m` whose key is the text `key`.
pub open spec fn key_index(m: Seq<(YamlView, YamlView)>, key: Seq<char>) -> Option<int>
    decreases m.len(),
{
    if m.len() == 0 {
        None
    } else {
        match key_index(m.drop_last(), key) {
            Some(i) => Some(i),
            None => if m.last().0 == YamlView::Text(key) {
                Some(m.len() - 1)
            } else {
                None
            },
        }
    }
}

/// The list under `key` in mapping `m`, if there is one.
pub open spec fn list_under(m: Seq<(YamlView, YamlView)>, key: Seq<char>) -> Seq<YamlView> {
    match key_index(m, key) {
        Some(i) => match m[i].1 {
            YamlView::List(s) => s,
            _ => Seq::empty(),
        },
        None => Seq::empty(),
    }
}

/// The table a chain item names: the item itself when it is text, or its
/// `table` text when it is a mapping.
pub open spec fn chain_ref(c: YamlView) -> Option<Seq<char>> {
    match untag(c) {
        YamlView::Text(s) => Some(s),
        YamlView::Mapping(cm) => match key_index(cm, "table"@) {
            Some(k) => match cm[k].1 {
                YamlView::Text(s) => Some(s),
                _ => None,
            },
            None => None,
        },
        _ => None,
    }
}

pub open spec fn opt_seq(o: Option<Seq<char>>) -> Seq<Seq<char>> {
    match o {
        Some(s) => seq![s],
        None => Seq::empty(),
    }
}

/// The chain items of result entry `e`.
pub open spec fn entry_chains(e: YamlView) -> Seq<YamlView> {
    match untag(e) {
        YamlView::Mapping(em) => list_under(em, "chain"@),
        _ => Seq::empty(),
    }
}

pub open spec fn chain_refs(cs: Seq<YamlView>) -> Seq<Seq<char>>
    decreases cs.len(),
{
    if cs.len() == 0 {
        Seq::empty()
    } else {
        chain_refs(cs.drop_last()) + opt_seq(chain_ref(cs.last()))
    }
}

pub open spec fn result_refs(rs: Seq<YamlView>) -> Seq<Seq<char>>
    decreases rs.len(),
{
    if rs.len() == 0 {
        Seq::empty()
    } else {
        result_refs(rs.drop_last()) + chain_refs(entry_chains(rs.last()))
    }
}

pub open spec fn table_ref(t: YamlView) -> Option<Seq<char>> {
    match untag(t) {
        YamlView::Text(s) => Some(s),
        _ => None,
    }
}

pub open spec fn table_refs(ts: Seq<YamlView>) -> Seq<Seq<char>>
    decreases ts.len(),
{
    if ts.len() == 0 {
        Seq::empty()
    } else {
        table_refs(ts.drop_last()) + opt_seq(table_ref(ts.last()))
    }
}

/// The tables a table document refers to: its results' chain items, then
/// its `tables` list.
pub open spec fn refs_of(v: YamlView) -> Seq<Seq<char>> {
    match untag(v) {
        YamlView::Mapping(m) => result_refs(list_under(m, "results"@)) + table_refs(list_under(m, "tables"@)),
        _ => Seq::empty(),
    }
}

pub open spec fn strings_view(v: Seq<String>) -> Seq<Seq<char>> {
    v.map_values(|s: String| s@)
}

fn untag_ref(y: &Yaml) -> (r: &Yaml)
    ensures
        yaml_view(*r) == untag(yaml_view(*y)),
        !(*r is Tagged),
    decreases y,
{
    match y {
        Yaml::Tagged(_, b) => untag_ref(b),
        _ => y,
    }
}

fn key_position(m: &Vec<(Yaml, Yaml)>, key: &str) -> (r: Option<usize>)
    ensures
        match r {
            Some(i) => key_index(pairs_view(m@), key@) == Some(i as int) && i < m@.len(),
            None => key_index(pairs_view(m@), key@) is None,
        },
{
    let ghost mv = pairs_view(m@);
    let mut i: usize = 0;
    assert(mv.take(0) =~= Seq::<(YamlView, YamlView)>::empty());
    while i < m.len()
        invariant
            i <= m@.len(),
            mv == pairs_view(m@),
            key_index(mv.take(i as int), key@) is None,
        decreases m@.len() - i,
    {
        assert(mv.take(i + 1).drop_last() =~= mv.take(i as int));
        let hit = match &m[i].0 {
            Yaml::Text(s) => str_equal(s.as_str(), key),
            _ => false,
        };
        if hit {
            proof {
                lemma_key_index_prefix(mv, key@, i + 1);
            }
            return Some(i);
        }
        i = i + 1;
    }
    assert(mv.take(i as int) =~= mv);
    None
}

proof fn lemma_key_index_prefix(m: Seq<(YamlView, YamlView)>, key: Seq<char>, k: int)
    requires
        0 <= k <= m.len(),
        key_index(m.take(k), key) is Some,
    ensures
        key_index(m, key) == key_index(m.take(k), key),
    decreases m.len() - k,
{
    if k < m.len() {
        assert(m.take(k + 1).drop_last() =~= m.take(k));
        lemma_key_index_prefix(m, key, k + 1);
    } else {
        assert(m.take(k) =~= m);
    }
}

proof fn lemma_key_index_range(m: Seq<(YamlView, YamlView)>, key: Seq<char>)
    ensures
        key_index(m, key) matches Some(i) ==> 0 <= i < m.len() && m[i].0 == YamlView::Text(key),
    decreases m.len(),
{
    if m.len() > 0 {
        lemma_key_index_range(m.drop_last(), key);
    }
}

/// The list under `key` in mapping `m`, if there is one.
fn list_under_exec<'a>(m: &'a Vec<(Yaml, Yaml)>, key: &str) -> (r: Option<&'a Vec<Yaml>>)
    ensures
        match r {
            Some(v) => list_view(v@) == list_under(pairs_view(m@), key@),
            None => list_under(pairs_view(m@), key@) == Seq::<YamlView>::empty(),
        },
{
    match key_position(m, key) {
        Some(i) => match &m[i].1 {
            Yaml::List(v) => {
                proof {
                    lemma_list_view(*v);
                }
                Some(v)
            },
            _ => None,
        },
        None => None,
    }
}

fn push_chain_ref(refs: &mut Vec<String>, c: &Yaml)
    ensures
        strings_view(final(refs)@) == strings_view(old(refs)@) + opt_seq(chain_ref(yaml_view(*c))),
{
    let ghost before = strings_view(refs@);
    match untag_ref(c) {
        Yaml::Text(s) => {
            refs.push(s.clone());
        },
        Yaml::Mapping(cm) => {
            proof {
                lemma_pairs_view(*cm);
            }
            match key_position(cm, "table") {
                Some(k) => match &cm[k].1 {
                    Yaml::Text(s) => {
                        refs.push(s.clone());
                    },
                    _ => {},
                },
                None => {},
            }
        },
        _ => {},
    }
    assert(strings_view(refs@) =~= before + opt_seq(chain_ref(yaml_view(*c))));
}

/// The tables a table document refers to, in order: its results' chain
/// items (plain names and `table:` entries), then its `tables` list.
pub fn extract_references(value: &Yaml) -> (refs: Vec<String>)
    ensures
        strings_view(refs@) == refs_of(yaml_view(*value)),
{
    let mut refs: Vec<String> = Vec::new();
    let m = match untag_ref(value) {
        Yaml::Mapping(m) => m,
        _ => {
            assert(strings_view(refs@) =~= Seq::<Seq<char>>::empty());
            return refs;
        },
    };
    proof {
        lemma_pairs_view(*m);
    }
    let ghost mv = pairs_view(m@);
    let ghost rs = list_under(mv, "results"@);
    assert(strings_view(refs@) =~= result_refs(rs.take(0)));
    match list_under_exec(m, "results") {
        Some(results) => {
            let mut i: usize = 0;
            while i < results.len()
                invariant
                    i <= results@.len(),
                    list_view(results@) == rs,
                    strings_view(refs@) == result_refs(rs.take(i as int)),
                decreases results@.len() - i,
            {
                assert(rs.take(i + 1).drop_last() =~= rs.take(i as int));
                let ghost before = strings_view(refs@);
                let ghost cs = entry_chains(rs[i as int]);
                match untag_ref(&results[i]) {
                    Yaml::Mapping(em) => {
                        proof {
                            lemma_pairs_view(*em);
                        }
                        match list_under_exec(em, "chain") {
                            Some(chains) => {
                                let mut j: usize = 0;
                                assert(before =~= before + chain_refs(cs.take(0)));
                                while j < chains.len()
                                    invariant
                                        j <= chains@.len(),
                                        list_view(chains@) == cs,
                                        strings_view(refs@) == before + chain_refs(cs.take(j as int)),
                                    decreases chains@.len() - j,
                                {
                                    assert(cs.take(j + 1).drop_last() =~= cs.take(j as int));
                                    push_chain_ref(&mut refs, &chains[j]);
                                    assert(strings_view(refs@) =~= before + chain_refs(cs.take(j + 1)));
                                    j = j + 1;
                                }
                                assert(cs.take(j as int) =~= cs);
                            },
                            None => {
                                assert(before =~= before + chain_refs(cs));
                            },
                        }
                    },
                    _ => {
                        assert(before =~= before + chain_refs(cs));
                    },
                }
                i = i + 1;
            }
            assert(rs.take(i as int) =~= rs);
        },
        None => {},
    }
    let ghost ts = list_under(mv, "tables"@);
    let ghost mid = strings_view(refs@);
    assert(mid =~= mid + table_refs(ts.take(0)));
    match list_under_exec(m, "tables") {
        Some(tables) => {
            let mut i: usize = 0;
            while i < tables.len()
                invariant
                    i <= tables@.len(),
                    list_view(tables@) == ts,
                    strings_view(refs@) == mid + table_refs(ts.take(i as int)),
                decreases tables@.len() - i,
            {
                assert(ts.take(i + 1).drop_last() =~= ts.take(i as int));
                assert(ts[i as int] == yaml_view(tables@[i as int]));
                let ghost before = strings_view(refs@);
                match untag_ref(&tables[i]) {
                    Yaml::Text(s) => {
                        refs.push(s.clone());
                    },
                    _ => {},
                }
                assert(strings_view(refs@) =~= before + opt_seq(table_ref(ts[i as int])));
                assert(strings_view(refs@) =~= mid + table_refs(ts.take(i + 1)));
                i = i + 1;
            }
            assert(ts.take(i as int) =~= ts);
        },
        None => {},
    }
    refs
}

/// Renamed ids: each pair maps an old id to the id it became, a later
/// pair for the same old id replacing an earlier one; a renaming counts
/// only when its new id is the stem of a table file.
pub struct Corrections {
    pairs: Vec<(String, String)>,
    stems: Vec<String>,
}

/// Renamings as values.
pub struct CorrView {
    pub pairs: Seq<(Seq<char>, Seq<char>)>,
    pub stems: Seq<Seq<char>>,
}

pub open spec fn pair_strings(v: Seq<(String, String)>) -> Seq<(Seq<char>, Seq<char>)> {
    v.map_values(|p: (String, String)| (p.0@, p.1@))
}

impl View for Corrections {
    type V = CorrView;

    closed spec fn view(&self) -> CorrView {
        CorrView { pairs: pair_strings(self.pairs@), stems: strings_view(self.stems@) }
    }
}

/// The id that `key` was last renamed to.
pub open spec fn latest(pairs: Seq<(Seq<char>, Seq<char>)>, key: Seq<char>) -> Option<Seq<char>>
    decreases pairs.len(),
{
    if pairs.len() == 0 {
        None
    } else if pairs.last().0 == key {
        Some(pairs.last().1)
    } else {
        latest(pairs.drop_last(), key)
    }
}

/// What a reference to `name` should become, if anything.
pub open spec fn fixed(c: CorrView, name: Seq<char>) -> Option<Seq<char>> {
    match latest(c.pairs, name) {
        Some(n) => if c.stems.contains(n) {
            Some(n)
        } else {
            None
        },
        None => None,
    }
}

impl Corrections {
    /// Renamings `pairs`, counted only towards the file stems `stems`.
    pub fn new(pairs: Vec<(String, String)>, stems: Vec<String>) -> (c: Corrections)
        ensures
            c@ == (CorrView { pairs: pair_strings(pairs@), stems: strings_view(stems@) }),
    {
        Corrections { pairs, stems }
    }

    /// What a reference to `name` should become, if anything.
    pub fn get(&self, name: &str) -> (r: Option<String>)
        ensures
            match r {
                Some(n) => fixed(self@, name@) == Some(n@),
                None => fixed(self@, name@) is None,
            },
    {
        let ghost ps = pair_strings(self.pairs@);
        let mut i = self.pairs.len();
        assert(ps.take(i as int) =~= ps);
        while i > 0
            invariant
                i <= self.pairs@.len(),
                ps == pair_strings(self.pairs@),
                latest(ps, name@) == latest(ps.take(i as int), name@),
            decreases i,
        {
            assert(ps.take(i as int).drop_last() =~= ps.take(i - 1));
            assert(ps.take(i as int).last() == ps[i - 1]);
            assert(ps[i - 1] == (self.pairs@[i - 1].0@, self.pairs@[i - 1].1@));
            if str_equal(self.pairs[i - 1].0.as_str(), name) {
                let target = &self.pairs[i - 1].1;
                assert(latest(ps, name@) == Some(target@));
                let mut j: usize = 0;
                while j < self.stems.len()
                    invariant
                        j <= self.stems@.len(),
                        latest(pair_strings(self.pairs@), name@) == Some(target@),
                        forall|k: int| 0 <= k < j ==> self.stems@[k]@ != target@,
                    decreases self.stems@.len() - j,
                {
                    if str_equal(self.stems[j].as_str(), target.as_str()) {
                        assert(strings_view(self.stems@)[j as int] == target@);
                        assert(strings_view(self.stems@).contains(target@));
                        let found = target.clone();
                        assert(fixed(self@, name@) == Some(found@));
                        return Some(found);
                    }
                    j = j + 1;
                }
                assert(!strings_view(self.stems@).contains(target@));
                return None;
            }
            i = i - 1;
        }
        None
    }
}

/// The (old, new) pairs for the references in `refs` that have a
/// renaming, in order.
pub open spec fn corrected(refs: Seq<Seq<char>>, c: CorrView) -> Seq<(Seq<char>, Seq<char>)>
    decreases refs.len(),
{
    if refs.len() == 0 {
        Seq::empty()
    } else {
        corrected(refs.drop_last(), c) + match fixed(c, refs.last()) {
            Some(n) => seq![(refs.last(), n)],
            None => Seq::empty(),
        }
    }
}

pub proof fn lemma_corrected_add(a: Seq<Seq<char>>, b: Seq<Seq<char>>, c: CorrView)
    ensures
        corrected(a + b, c) == corrected(a, c) + corrected(b, c),
    decreases b.len(),
{
    if b.len() == 0 {
        assert(a + b =~= a);
        assert(corrected(a, c) + corrected(b, c) =~= corrected(a, c));
    } else {
        assert((a + b).drop_last() =~= a + b.drop_last());
        lemma_corrected_add(a, b.drop_last(), c);
        let tail = match fixed(c, b.last()) {
            Some(n) => seq![(b.last(), n)],
            None => Seq::<(Seq<char>, Seq<char>)>::empty(),
        };
        assert(corrected(a, c) + corrected(b.drop_last(), c) + tail =~= corrected(a, c) + (corrected(
            b.drop_last(),
            c,
        ) + tail));
    }
}

/// A plain-text node renamed, or `v` as it is.
pub open spec fn upd_text(v: YamlView, c: CorrView) -> YamlView {
    match untag(v) {
        YamlView::Text(s) => match fixed(c, s) {
            Some(n) => YamlView::Text(n),
            None => v,
        },
        _ => v,
    }
}

/// A chain item given as a mapping, with its `table` renamed.
pub open spec fn upd_chain_table(v: YamlView, c: CorrView) -> YamlView {
    match untag(v) {
        YamlView::Mapping(cm) => match key_index(cm, "table"@) {
            Some(k) => match cm[k].1 {
                YamlView::Text(s) => match fixed(c, s) {
                    Some(n) => retag(v, YamlView::Mapping(cm.update(k, (cm[k].0, YamlView::Text(n))))),
                    None => v,
                },
                _ => v,
            },
            None => v,
        },
        _ => v,
    }
}

/// A chain item with the table it names renamed.
pub open spec fn upd_chain(v: YamlView, c: CorrView) -> YamlView {
    match untag(v) {
        YamlView::Text(_) => upd_text(v, c),
        _ => upd_chain_table(v, c),
    }
}

/// Mapping `m` with each item of the list under `key` passed through `f`.
pub open spec fn upd_list(m: Seq<(YamlView, YamlView)>, key: Seq<char>, f: spec_fn(YamlView) -> YamlView) -> Seq<
    (YamlView, YamlView),
> {
    match key_index(m, key) {
        Some(k) => match m[k].1 {
            YamlView::List(xs) => m.update(k, (m[k].0, YamlView::List(xs.map_values(f)))),
            _ => m,
        },
        None => m,
    }
}

/// A result entry with its chain items renamed.
pub open spec fn upd_entry(v: YamlView, c: CorrView) -> YamlView {
    match untag(v) {
        YamlView::Mapping(em) => retag(v, YamlView::Mapping(upd_list(em, "chain"@, |x: YamlView| upd_chain(x, c)))),
        _ => v,
    }
}

/// A table document with every reference renamed.
pub open spec fn upd_root(v: YamlView, c: CorrView) -> YamlView {
    match untag(v) {
        YamlView::Mapping(m) => retag(
            v,
            YamlView::Mapping(
                upd_list(
                    upd_list(m, "results"@, |x: YamlView| upd_entry(x, c)),
                    "tables"@,
                    |x: YamlView| upd_text(x, c),
                ),
            ),
        ),
        _ => v,
    }
}

/// Rename the text `v` if it has a renaming, recording the pair.
fn update_text(v: Yaml, c: &Corrections, out: &mut Vec<(String, String)>) -> (r: Yaml)
    ensures
        yaml_view(r) == upd_text(yaml_view(v), c@),
        pair_strings(final(out)@) == pair_strings(old(out)@) + corrected(opt_seq(table_ref(yaml_view(v))), c@),
{
    let ghost before = pair_strings(out@);
    let fix = match untag_ref(&v) {
        Yaml::Text(s) => match c.get(s.as_str()) {
            Some(n) => Some((s.clone(), n)),
            None => None,
        },
        _ => None,
    };
    proof {
        reveal_with_fuel(corrected, 2);
    }
    match fix {
        Some((old_name, n)) => {
            let r = Yaml::Text(n.clone());
            out.push((old_name, n));
            assert(pair_strings(out@) =~= before + corrected(opt_seq(table_ref(yaml_view(v))), c@));
            r
        },
        None => {
            assert(pair_strings(out@) =~= before + corrected(opt_seq(table_ref(yaml_view(v))), c@));
            v
        },
    }
}

/// Replace entry `k` of mapping `m` by its key and `value`.
fn set_value(m: &mut Vec<(Yaml, Yaml)>, k: usize, value: Yaml) -> (old_value: Yaml)
    requires
        k < old(m)@.len(),
    ensures
        final(m)@.len() == old(m)@.len(),
        pairs_view(final(m)@) == pairs_view(old(m)@).update(
            k as int,
            (pairs_view(old(m)@)[k as int].0, yaml_view(value)),
        ),
        yaml_view(old_value) == pairs_view(old(m)@)[k as int].1,
{
    let (key, old_value) = m.remove(k);
    m.insert(k, (key, value));
    assert(pairs_view(m@) =~= pairs_view(old(m)@).update(
        k as int,
        (pairs_view(old(m)@)[k as int].0, yaml_view(value)),
    ));
    old_value
}

/// A chain item given as a mapping, with its `table` renamed.
fn update_chain_table(v: Yaml, c: &Corrections, out: &mut Vec<(String, String)>) -> (r: Yaml)
    ensures
        yaml_view(r) == upd_chain_table(yaml_view(v), c@),
        !(untag(yaml_view(v)) is Text) ==> pair_strings(final(out)@) == pair_strings(old(out)@) + corrected(
            opt_seq(chain_ref(yaml_view(v))),
            c@,
        ),
        untag(yaml_view(v)) is Text ==> final(out)@ == old(out)@,
    decreases v,
{
    let ghost before = pair_strings(out@);
    proof {
        reveal_with_fuel(corrected, 2);
    }
    match v {
        Yaml::Tagged(t, b) => {
            let inner = update_chain_table(*b, c, out);
            Yaml::Tagged(t, Box::new(inner))
        },
        Yaml::Mapping(cm) => {
            proof {
                lemma_pairs_view(cm);
            }
            let mut cm = cm;
            let k = match key_position(&cm, "table") {
                Some(k) => k,
                None => {
                    assert(pair_strings(out@) =~= before + corrected(opt_seq(chain_ref(yaml_view(v))), c@));
                    return Yaml::Mapping(cm);
                },
            };
            let fix = match &cm[k].1 {
                Yaml::Text(s) => match c.get(s.as_str()) {
                    Some(n) => Some((s.clone(), n)),
                    None => None,
                },
                _ => None,
            };
            match fix {
                Some((old_name, n)) => {
                    let ghost cv = pairs_view(cm@);
                    let _ = set_value(&mut cm, k, Yaml::Text(n.clone()));
                    out.push((old_name, n));
                    proof {
                        lemma_pairs_view(cm);
                        assert(pair_strings(out@) =~= before + corrected(opt_seq(chain_ref(yaml_view(v))), c@));
                    }
                    Yaml::Mapping(cm)
                },
                None => {
                    assert(pair_strings(out@) =~= before + corrected(opt_seq(chain_ref(yaml_view(v))), c@));
                    Yaml::Mapping(cm)
                },
            }
        },
        other => {
            assert(!(untag(yaml_view(other)) is Text) ==> pair_strings(out@) =~= before + corrected(
                opt_seq(chain_ref(yaml_view(other))),
                c@,
            ));
            other
        },
    }
}

/// A chain item with the table it names renamed.
fn update_chain(v: Yaml, c: &Corrections, out: &mut Vec<(String, String)>) -> (r: Yaml)
    ensures
        yaml_view(r) == upd_chain(yaml_view(v), c@),
        pair_strings(final(out)@) == pair_strings(old(out)@) + corrected(opt_seq(chain_ref(yaml_view(v))), c@),
{
    let is_text = match untag_ref(&v) {
        Yaml::Text(_) => true,
        _ => false,
    };
    if is_text {
        update_text(v, c, out)
    } else {
        update_chain_table(v, c, out)
    }
}

fn update_chains(cs: Vec<Yaml>, c: &Corrections, out: &mut Vec<(String, String)>) -> (r: Vec<Yaml>)
    ensures
        list_view(r@) == list_view(cs@).map_values(|x: YamlView| upd_chain(x, c@)),
        pair_strings(final(out)@) == pair_strings(old(out)@) + corrected(chain_refs(list_view(cs@)), c@),
{
    let ghost before = pair_strings(out@);
    let ghost xs = list_view(cs@);
    let mut r: Vec<Yaml> = Vec::new();
    assert(before =~= before + corrected(chain_refs(xs.take(0)), c@));
    for x in it: cs.into_iter()
        invariant
            it.seq() == cs@,
            xs == list_view(cs@),
            r@.len() == it.index(),
            forall|j: int| 0 <= j < it.index() ==> #[trigger] yaml_view(r@[j]) == upd_chain(xs[j], c@),
            pair_strings(out@) == before + corrected(chain_refs(xs.take(it.index() as int)), c@),
    {
        let ghost k = it.index() as int;
        assert(xs.take(k + 1).drop_last() =~= xs.take(k));
        assert(xs[k] == yaml_view(x));
        proof {
            lemma_corrected_add(chain_refs(xs.take(k)), opt_seq(chain_ref(xs[k])), c@);
        }
        let y = update_chain(x, c, out);
        r.push(y);
    }
    assert(xs.take(xs.len() as int) =~= xs);
    assert(list_view(r@) =~= xs.map_values(|x: YamlView| upd_chain(x, c@)));
    r
}

proof fn lemma_key_index_keys(m: Seq<(YamlView, YamlView)>, k: int, x: YamlView, key: Seq<char>)
    requires
        0 <= k < m.len(),
    ensures
        key_index(m.update(k, (m[k].0, x)), key) == key_index(m, key),
    decreases m.len(),
{
    let m2 = m.update(k, (m[k].0, x));
    if k < m.len() - 1 {
        assert(m2.drop_last() =~= m.drop_last().update(k, (m[k].0, x)));
        lemma_key_index_keys(m.drop_last(), k, x, key);
    } else {
        assert(m2.drop_last() =~= m.drop_last());
    }
}

fn update_entry(v: Yaml, c: &Corrections, out: &mut Vec<(String, String)>) -> (r: Yaml)
    ensures
        yaml_view(r) == upd_entry(yaml_view(v), c@),
        pair_strings(final(out)@) == pair_strings(old(out)@) + corrected(
            chain_refs(entry_chains(yaml_view(v))),
            c@,
        ),
    decreases v,
{
    match v {
        Yaml::Tagged(t, b) => {
            let inner = update_entry(*b, c, out);
            Yaml::Tagged(t, Box::new(inner))
        },
        Yaml::Mapping(em) => {
            proof {
                lemma_pairs_view(em);
            }
            let ghost ev = pairs_view(em@);
            let mut em = em;
            let k = match key_position(&em, "chain") {
                Some(k) => k,
                None => {
                    assert(pair_strings(out@) =~= pair_strings(out@) + corrected(Seq::empty(), c@));
                    return Yaml::Mapping(em);
                },
            };
            let is_list = match &em[k].1 {
                Yaml::List(_) => true,
                _ => false,
            };
            if !is_list {
                assert(pair_strings(out@) =~= pair_strings(out@) + corrected(Seq::empty(), c@));
                return Yaml::Mapping(em);
            }
            let old_value = set_value(&mut em, k, Yaml::Null);
            let cs = match old_value {
                Yaml::List(cs) => cs,
                _ => Vec::new(),
            };
            proof {
                lemma_list_view(cs);
            }
            let updated = update_chains(cs, c, out);
            let _ = set_value(&mut em, k, Yaml::List(updated));
            proof {
                lemma_list_view(updated);
                lemma_pairs_view(em);
                assert(pairs_view(em@) =~= upd_list(ev, "chain"@, |x: YamlView| upd_chain(x, c@)));
            }
            Yaml::Mapping(em)
        },
        other => {
            assert(pair_strings(out@) =~= pair_strings(out@) + corrected(Seq::empty(), c@));
            other
        },
    }
}

fn update_entries(rs: Vec<Yaml>, c: &Corrections, out: &mut Vec<(String, String)>) -> (r: Vec<Yaml>)
    ensures
        list_view(r@) == list_view(rs@).map_values(|x: YamlView| upd_entry(x, c@)),
        pair_strings(final(out)@) == pair_strings(old(out)@) + corrected(result_refs(list_view(rs@)), c@),
{
    let ghost before = pair_strings(out@);
    let ghost xs = list_view(rs@);
    let mut r: Vec<Yaml> = Vec::new();
    assert(before =~= before + corrected(result_refs(xs.take(0)), c@));
    for x in it: rs.into_iter()
        invariant
            it.seq() == rs@,
            xs == list_view(rs@),
            r@.len() == it.index(),
            forall|j: int| 0 <= j < it.index() ==> #[trigger] yaml_view(r@[j]) == upd_entry(xs[j], c@),
            pair_strings(out@) == before + corrected(result_refs(xs.take(it.index() as int)), c@),
    {
        let ghost k = it.index() as int;
        assert(xs.take(k + 1).drop_last() =~= xs.take(k));
        assert(xs[k] == yaml_view(x));
        proof {
            lemma_corrected_add(result_refs(xs.take(k)), chain_refs(entry_chains(xs[k])), c@);
        }
        let y = update_entry(x, c, out);
        r.push(y);
    }
    assert(xs.take(xs.len() as int) =~= xs);
    assert(list_view(r@) =~= xs.map_values(|x: YamlView| upd_entry(x, c@)));
    r
}

fn update_tables(ts: Vec<Yaml>, c: &Corrections, out: &mut Vec<(String, String)>) -> (r: Vec<Yaml>)
    ensures
        list_view(r@) == list_view(ts@).map_values(|x: YamlView| upd_text(x, c@)),
        pair_strings(final(out)@) == pair_strings(old(out)@) + corrected(table_refs(list_view(ts@)), c@),
{
    let ghost before = pair_strings(out@);
    let ghost xs = list_view(ts@);
    let mut r: Vec<Yaml> = Vec::new();
    assert(before =~= before + corrected(table_refs(xs.take(0)), c@));
    for x in it: ts.into_iter()
        invariant
            it.seq() == ts@,
            xs == list_view(ts@),
            r@.len() == it.index(),
            forall|j: int| 0 <= j < it.index() ==> #[trigger] yaml_view(r@[j]) == upd_text(xs[j], c@),
            pair_strings(out@) == before + corrected(table_refs(xs.take(it.index() as int)), c@),
    {
        let ghost k = it.index() as int;
        assert(xs.take(k + 1).drop_last() =~= xs.take(k));
        assert(xs[k] == yaml_view(x));
        proof {
            lemma_corrected_add(table_refs(xs.take(k)), opt_seq(table_ref(xs[k])), c@);
        }
        let y = update_text(x, c, out);
        r.push(y);
    }
    assert(xs.take(xs.len() as int) =~= xs);
    assert(list_view(r@) =~= xs.map_values(|x: YamlView| upd_text(x, c@)));
    r
}

fn update_root(v: Yaml, c: &Corrections, out: &mut Vec<(String, String)>) -> (r: Yaml)
    ensures
        yaml_view(r) == upd_root(yaml_view(v), c@),
        pair_strings(final(out)@) == pair_strings(old(out)@) + corrected(refs_of(yaml_view(v)), c@),
    decreases v,
{
    match v {
        Yaml::Tagged(t, b) => {
            let inner = update_root(*b, c, out);
            Yaml::Tagged(t, Box::new(inner))
        },
        Yaml::Mapping(m) => {
            proof {
                lemma_pairs_view(m);
            }
            let ghost mv = pairs_view(m@);
            let ghost before = pair_strings(out@);
            let mut m = m;
            let mut results_at: Option<usize> = None;
            match key_position(&m, "results") {
                Some(k) => {
                    let is_list = match &m[k].1 {
                        Yaml::List(_) => true,
                        _ => false,
                    };
                    if is_list {
                        let old_value = set_value(&mut m, k, Yaml::Null);
                        let rs = match old_value {
                            Yaml::List(rs) => rs,
                            _ => Vec::new(),
                        };
                        proof {
                            lemma_list_view(rs);
                        }
                        let updated = update_entries(rs, c, out);
                        let _ = set_value(&mut m, k, Yaml::List(updated));
                        proof {
                            lemma_list_view(updated);
                        }
                        results_at = Some(k);
                    }
                },
                None => {},
            }
            let ghost mid = pairs_view(m@);
            let ghost after_results = pair_strings(out@);
            proof {
                assert(mid =~= upd_list(mv, "results"@, |x: YamlView| upd_entry(x, c@)));
                reveal_strlit("tables");
                reveal_strlit("results");
                lemma_key_index_range(mv, "tables"@);
                assert("results"@.len() != "tables"@.len());
                assert(YamlView::Text("results"@) != YamlView::Text("tables"@));
                if let Some(k) = key_index(mv, "results"@) {
                    lemma_key_index_range(mv, "results"@);
                    if mv[k].1 is List {
                        assert(mid =~= mv.update(k, (mv[k].0, mid[k].1)));
                        lemma_key_index_keys(mv, k, mid[k].1, "tables"@);
                        assert(key_index(mid, "tables"@) == key_index(mv, "tables"@));
                        if let Some(kt) = key_index(mv, "tables"@) {
                            assert(mv[kt].0 == YamlView::Text("tables"@));
                            assert(kt != k);
                        }
                    }
                }
                lemma_key_index_range(mv, "tables"@);
                assert(list_under(mid, "tables"@) == list_under(mv, "tables"@));
                assert(after_results == before + corrected(result_refs(list_under(mv, "results"@)), c@));
            }
            match key_position(&m, "tables") {
                Some(k) => {
                    let is_list = match &m[k].1 {
                        Yaml::List(_) => true,
                        _ => false,
                    };
                    if is_list {
                        let old_value = set_value(&mut m, k, Yaml::Null);
                        let ts = match old_value {
                            Yaml::List(ts) => ts,
                            _ => Vec::new(),
                        };
                        proof {
                            lemma_list_view(ts);
                        }
                        let updated = update_tables(ts, c, out);
                        let _ = set_value(&mut m, k, Yaml::List(updated));
                        proof {
                            lemma_list_view(updated);
                        }
                    } else {
                        assert(pair_strings(out@) =~= pair_strings(out@) + corrected(Seq::empty(), c@));
                    }
                },
                None => {
                    assert(pair_strings(out@) =~= pair_strings(out@) + corrected(Seq::empty(), c@));
                },
            }
            proof {
                lemma_pairs_view(m);
                assert(pairs_view(m@) =~= upd_list(mid, "tables"@, |x: YamlView| upd_text(x, c@)));
                lemma_corrected_add(
                    result_refs(list_under(mv, "results"@)),
                    table_refs(list_under(mv, "tables"@)),
                    c@,
                );
                assert(pair_strings(out@) =~= before + corrected(refs_of(yaml_view(v)), c@));
            }
            Yaml::Mapping(m)
        },
        other => {
            assert(pair_strings(out@) =~= pair_strings(out@) + corrected(Seq::empty(), c@));
            other
        },
    }
}

/// Rename every reference in a table document that has a renaming, and
/// give the (old, new) pairs in the order the references appear.
pub fn update_references(value: &mut Yaml, c: &Corrections) -> (updated: Vec<(String, String)>)
    ensures
        yaml_view(*final(value)) == upd_root(yaml_view(*old(value)), c@),
        pair_strings(updated@) == corrected(refs_of(yaml_view(*old(value))), c@),
{
    let mut v = Yaml::Null;
    std::mem::swap(&mut v, value);
    let mut out: Vec<(String, String)> = Vec::new();
    let r = update_root(v, c, &mut out);
    *value = r;
    assert(pair_strings(out@) =~= corrected(refs_of(yaml_view(v)), c@));
    out
}

/// What making a document's `id` match its file stem did.
#[derive(Debug, Clone, PartialEq, Eq)]
pub enum IdFix {
    /// The document is not a mapping; nothing was done.
    NotMapping,
    /// The `id` already matched.
    Unchanged,
    /// The `id` was replaced; the old one as text (or `<non-string>`).
    Corrected(String),
    /// There was no `id`; one was added first.
    Added,
}

pub enum IdFixView {
    NotMapping,
    Unchanged,
    Corrected(Seq<char>),
    Added,
}

pub open spec fn id_fix_view(f: IdFix) -> IdFixView {
    match f {
        IdFix::NotMapping => IdFixView::NotMapping,
        IdFix::Unchanged => IdFixView::Unchanged,
        IdFix::Corrected(s) => IdFixView::Corrected(s@),
        IdFix::Added => IdFixView::Added,
    }
}

/// Make the `id` of document `v` the text `stem`: what that does and the
/// document it leaves.
pub open spec fn id_fix(v: YamlView, stem: Seq<char>) -> (IdFixView, YamlView) {
    match untag(v) {
        YamlView::Mapping(m) => match key_index(m, "id"@) {
            Some(k) => if m[k].1 == YamlView::Text(stem) {
                (IdFixView::Unchanged, v)
            } else {
                (
                    IdFixView::Corrected(
                        match untag(m[k].1) {
                            YamlView::Text(s) => s,
                            _ => "<non-string>"@,
                        },
                    ),
                    retag(v, YamlView::Mapping(m.update(k, (m[k].0, YamlView::Text(stem))))),
                )
            },
            None => (
                IdFixView::Added,
                retag(v, YamlView::Mapping(seq![(YamlView::Text("id"@), YamlView::Text(stem))] + m)),
            ),
        },
        _ => (IdFixView::NotMapping, v),
    }
}

fn fix_id_owned(v: Yaml, stem: &str) -> (r: (Yaml, IdFix))
    ensures
        (id_fix_view(r.1), yaml_view(r.0)) == id_fix(yaml_view(v), stem@),
    decreases v,
{
    match v {
        Yaml::Tagged(t, b) => {
            let (inner, f) = fix_id_owned(*b, stem);
            (Yaml::Tagged(t, Box::new(inner)), f)
        },
        Yaml::Mapping(m) => {
            proof {
                lemma_pairs_view(m);
            }
            let ghost mv = pairs_view(m@);
            let mut m = m;
            match key_position(&m, "id") {
                Some(k) => {
                    let same = match &m[k].1 {
                        Yaml::Text(s) => str_equal(s.as_str(), stem),
                        _ => false,
                    };
                    if same {
                        return (Yaml::Mapping(m), IdFix::Unchanged);
                    }
                    let old_id = match untag_ref(&m[k].1) {
                        Yaml::Text(s) => s.clone(),
                        _ => "<non-string>".to_owned(),
                    };
                    let _ = set_value(&mut m, k, Yaml::Text(stem.to_owned()));
                    proof {
                        lemma_pairs_view(m);
                    }
                    (Yaml::Mapping(m), IdFix::Corrected(old_id))
                },
                None => {
                    let mut nm: Vec<(Yaml, Yaml)> = Vec::new();
                    nm.push((Yaml::Text("id".to_owned()), Yaml::Text(stem.to_owned())));
                    let ghost first = pairs_view(nm@);
                    for p in it: m.into_iter()
                        invariant
                            it.seq() == m@,
                            nm@.len() == 1 + it.index(),
                            pairs_view(nm@) == first + pairs_view(m@).take(it.index() as int),
                    {
                        let ghost k = it.index() as int;
                        let ghost before = pairs_view(nm@);
                        assert(p == m@[k]);
                        assert(pairs_view(m@)[k] == (yaml_view(p.0), yaml_view(p.1)));
                        nm.push(p);
                        assert(pairs_view(nm@) =~= before.push((yaml_view(p.0), yaml_view(p.1))));
                        assert(pairs_view(m@).take(k + 1) =~= pairs_view(m@).take(k).push(pairs_view(m@)[k]));
                        assert(pairs_view(nm@) =~= first + pairs_view(m@).take(k + 1));
                    }
                    proof {
                        assert(pairs_view(m@).take(m@.len() as int) =~= pairs_view(m@));
                        lemma_pairs_view(nm);
                        assert(first =~= seq![(YamlView::Text("id"@), YamlView::Text(stem@))]);
                    }
                    (Yaml::Mapping(nm), IdFix::Added)
                },
            }
        },
        other => (other, IdFix::NotMapping),
    }
}

/// Make the `id` of a table document match its file stem `stem`: replace
/// a different one in place, or add one as the first key.
pub fn fix_id(value: &mut Yaml, stem: &str) -> (r: IdFix)
    ensures
        (id_fix_view(r), yaml_view(*final(value))) == id_fix(yaml_view(*old(value)), stem@),
{
    let mut v = Yaml::Null;
    std::mem::swap(&mut v, value);
    let (nv, f) = fix_id_owned(v, stem);
    *value = nv;
    f
}

/// A law of `fix_id`: afterwards a mapping document's `id` is its stem.
pub proof fn lemma_fixed_id_is_stem(v: YamlView, stem: Seq<char>)
    requires
        untag(v) is Mapping,
    ensures
        untag(id_fix(v, stem).1) matches YamlView::Mapping(m2) && key_index(m2, "id"@) matches Some(k)
            && m2[k].1 == YamlView::Text(stem),
{
    lemma_untag_retag(v, untag(v));
    if let YamlView::Mapping(m) = untag(v) {
        lemma_key_index_range(m, "id"@);
        match key_index(m, "id"@) {
            Some(k) => {
                if m[k].1 != YamlView::Text(stem) {
                    let m2 = m.update(k, (m[k].0, YamlView::Text(stem)));
                    lemma_untag_retag(v, YamlView::Mapping(m2));
                    lemma_key_index_keys(m, k, YamlView::Text(stem), "id"@);
                }
            },
            None => {
                let m2 = seq![(YamlView::Text("id"@), YamlView::Text(stem))] + m;
                lemma_untag_retag(v, YamlView::Mapping(m2));
                assert(m2.take(1) =~= seq![(YamlView::Text("id"@), YamlView::Text(stem))]);
                assert(seq![(YamlView::Text("id"@), YamlView::Text(stem))].drop_last() =~= Seq::<
                    (YamlView, YamlView),
                >::empty());
                assert(key_index(Seq::<(YamlView, YamlView)>::empty(), "id"@) is None);
                assert(key_index(seq![(YamlView::Text("id"@), YamlView::Text(stem))], "id"@) == Some(0int));
                lemma_key_index_prefix(m2, "id"@, 1);
            },
        }
    }
}

proof fn lemma_untag_retag(v: YamlView, inner: YamlView)
    requires
        !(inner is Tagged),
    ensures
        untag(retag(v, inner)) == inner,
    decreases v,
{
    if let YamlView::Tagged(_, b) = v {
        lemma_untag_retag(*b, inner);
    }
}

/// What was done to one table file.
#[derive(Debug, Clone, PartialEq)]
pub enum FixAction {
    /// The `id` was missing and has been added.
    Added { path: String, id: String },
    /// The `id` was wrong and has been corrected.
    Corrected { path: String, old_id: String, id: String },
    /// The `id` was already right.
    Unchanged { path: String },
    /// A reference was renamed.
    UpdatedReference { path: String, old_ref: String, new_ref: String },
}

/// Something found but left as it is.
#[derive(Debug, Clone, PartialEq)]
pub enum FixWarning {
    /// A reference to an id that was corrected.
    StaleReference { path: String, reference: String, suggested: String },
}

/// How an action is reported.
pub open spec fn action_text(a: FixAction) -> Seq<char> {
    match a {
        FixAction::Added { path, id } => "Added id '"@ + id@ + "' to "@ + path@,
        FixAction::Corrected { path, old_id, id } => "Corrected id '"@ + old_id@ + "' -> '"@ + id@
            + "' in "@ + path@,
        FixAction::Unchanged { path } => "OK: "@ + path@,
        FixAction::UpdatedReference { path, old_ref, new_ref } => "Updated reference '"@ + old_ref@
            + "' -> '"@ + new_ref@ + "' in "@ + path@,
    }
}

/// How a warning is reported.
pub open spec fn warning_text(w: FixWarning) -> Seq<char> {
    match w {
        FixWarning::StaleReference { path, reference, suggested } => "Warning: stale reference '"@
            + reference@ + "' in "@ + path@ + " (should be '"@ + suggested@ + "')"@,
    }
}

impl FixAction {
    /// The report line of this action.
    pub fn message(&self) -> (r: String)
        ensures
            r@ == action_text(*self),
    {
        let mut out = String::new();
        match self {
            FixAction::Added { path, id } => {
                push_str(&mut out, "Added id '");
                push_str(&mut out, id.as_str());
                push_str(&mut out, "' to ");
                push_str(&mut out, path.as_str());
            },
            FixAction::Corrected { path, old_id, id } => {
                push_str(&mut out, "Corrected id '");
                push_str(&mut out, old_id.as_str());
                push_str(&mut out, "' -> '");
                push_str(&mut out, id.as_str());
                push_str(&mut out, "' in ");
                push_str(&mut out, path.as_str());
            },
            FixAction::Unchanged { path } => {
                push_str(&mut out, "OK: ");
                push_str(&mut out, path.as_str());
            },
            FixAction::UpdatedReference { path, old_ref, new_ref } => {
                push_str(&mut out, "Updated reference '");
                push_str(&mut out, old_ref.as_str());
                push_str(&mut out, "' -> '");
                push_str(&mut out, new_ref.as_str());
                push_str(&mut out, "' in ");
                push_str(&mut out, path.as_str());
            },
        }
        out
    }
}

impl FixWarning {
    /// The report line of this warning.
    pub fn message(&self) -> (r: String)
        ensures
            r@ == warning_text(*self),
    {
        let mut out = String::new();
        match self {
            FixWarning::StaleReference { path, reference, suggested } => {
                push_str(&mut out, "Warning: stale reference '");
                push_str(&mut out, reference.as_str());
                push_str(&mut out, "' in ");
                push_str(&mut out, path.as_str());
                push_str(&mut out, " (should be '");
                push_str(&mut out, suggested.as_str());
                push_str(&mut out, "')");
            },
        }
        out
    }
}

/// What fixing a collection did, warned about and could not do.
#[derive(Debug)]
pub struct FixResult {
    pub actions: Vec<FixAction>,
    pub warnings: Vec<FixWarning>,
    pub errors: Vec<Error>,
}

/// A table file: where it is, its stem, and its parsed document or why
/// it did not parse.
#[derive(Debug)]
pub struct TableSource {
    pub path: String,
    pub stem: String,
    pub document: Result<Yaml, String>,
}

pub enum ActionView {
    Added(Seq<char>, Seq<char>),
    Corrected(Seq<char>, Seq<char>, Seq<char>),
    Unchanged(Seq<char>),
    UpdatedReference(Seq<char>, Seq<char>, Seq<char>),
}

pub open spec fn action_view(a: FixAction) -> ActionView {
    match a {
        FixAction::Added { path, id } => ActionView::Added(path@, id@),
        FixAction::Corrected { path, old_id, id } => ActionView::Corrected(path@, old_id@, id@),
        FixAction::Unchanged { path } => ActionView::Unchanged(path@),
        FixAction::UpdatedReference { path, old_ref, new_ref } => ActionView::UpdatedReference(
            path@,
            old_ref@,
            new_ref@,
        ),
    }
}

pub open spec fn actions_view(v: Seq<FixAction>) -> Seq<ActionView> {
    v.map_values(|a: FixAction| action_view(a))
}

/// A warning as (path, reference, suggested id).
pub open spec fn warning_view(w: FixWarning) -> (Seq<char>, Seq<char>, Seq<char>) {
    match w {
        FixWarning::StaleReference { path, reference, suggested } => (path@, reference@, suggested@),
    }
}

pub open spec fn warnings_view(v: Seq<FixWarning>) -> Seq<(Seq<char>, Seq<char>, Seq<char>)> {
    v.map_values(|w: FixWarning| warning_view(w))
}

/// The errors fixing reports itself.
pub enum FixErr {
    /// A document did not parse, with the parser's message.
    Parse(Seq<char>),
    /// A document is not what was expected: its path and why.
    Format(Seq<char>, Seq<char>),
    Other,
}

pub open spec fn fix_err(e: Error) -> FixErr {
    match e {
        Error::Yaml(m) => FixErr::Parse(m@),
        Error::Load(LoadError::InvalidFormat { path, reason }) => FixErr::Format(path@, reason@),
        _ => FixErr::Other,
    }
}

pub open spec fn fix_errs(v: Seq<Error>) -> Seq<FixErr> {
    v.map_values(|e: Error| fix_err(e))
}

/// A table file as values.
pub struct SourceView {
    pub path: Seq<char>,
    pub stem: Seq<char>,
    pub document: Result<YamlView, Seq<char>>,
}

pub open spec fn source_view(f: TableSource) -> SourceView {
    SourceView {
        path: f.path@,
        stem: f.stem@,
        document: match f.document {
            Ok(y) => Ok(yaml_view(y)),
            Err(m) => Err(m@),
        },
    }
}

pub open spec fn sources_view(v: Seq<TableSource>) -> Seq<SourceView> {
    v.map_values(|f: TableSource| source_view(f))
}

/// The first pass over one file: its error, or its action and the
/// document to write back, if any.
pub enum FirstPass {
    Failed(FixErr),
    Done(ActionView, Option<YamlView>),
}

pub open spec fn first_pass(f: SourceView) -> FirstPass {
    match f.document {
        Err(m) => FirstPass::Failed(FixErr::Parse(m)),
        Ok(v) => match id_fix(v, f.stem) {
            (IdFixView::NotMapping, _) => FirstPass::Failed(FixErr::Format(f.path, "YAML root is not a mapping"@)),
            (IdFixView::Unchanged, _) => FirstPass::Done(ActionView::Unchanged(f.path), None),
            (IdFixView::Corrected(old), nv) => FirstPass::Done(ActionView::Corrected(f.path, old, f.stem), Some(nv)),
            (IdFixView::Added, nv) => FirstPass::Done(ActionView::Added(f.path, f.stem), Some(nv)),
        },
    }
}

pub open spec fn first_actions(fs: Seq<SourceView>) -> Seq<ActionView>
    decreases fs.len(),
{
    if fs.len() == 0 {
        Seq::empty()
    } else {
        first_actions(fs.drop_last()) + match first_pass(fs.last()) {
            FirstPass::Done(a, _) => seq![a],
            FirstPass::Failed(_) => Seq::empty(),
        }
    }
}

pub open spec fn first_errors(fs: Seq<SourceView>) -> Seq<FixErr>
    decreases fs.len(),
{
    if fs.len() == 0 {
        Seq::empty()
    } else {
        first_errors(fs.drop_last()) + match first_pass(fs.last()) {
            FirstPass::Failed(e) => seq![e],
            FirstPass::Done(_, _) => Seq::empty(),
        }
    }
}

pub open spec fn first_writes(fs: Seq<SourceView>) -> Seq<(Seq<char>, YamlView)>
    decreases fs.len(),
{
    if fs.len() == 0 {
        Seq::empty()
    } else {
        first_writes(fs.drop_last()) + match first_pass(fs.last()) {
            FirstPass::Done(_, Some(nv)) => seq![(fs.last().path, nv)],
            _ => Seq::empty(),
        }
    }
}

pub open spec fn writes_view(v: Seq<(String, Yaml)>) -> Seq<(Seq<char>, YamlView)> {
    v.map_values(|w: (String, Yaml)| (w.0@, yaml_view(w.1)))
}

/// The first pass of fixing: make each table's `id` match its file stem.
/// The result starts with `discovery_errors`; the documents to write back
/// come with their paths, in order.
pub fn fix_ids(files: Vec<TableSource>, discovery_errors: Vec<Error>) -> (r: (FixResult, Vec<(String, Yaml)>))
    ensures
        actions_view(r.0.actions@) == first_actions(sources_view(files@)),
        r.0.warnings@.len() == 0,
        r.0.errors@.len() == discovery_errors@.len() + first_errors(sources_view(files@)).len(),
        r.0.errors@.take(discovery_errors@.len() as int) == discovery_errors@,
        fix_errs(r.0.errors@.skip(discovery_errors@.len() as int)) == first_errors(sources_view(files@)),
        writes_view(r.1@) == first_writes(sources_view(files@)),
{
    let ghost fsv = sources_view(files@);
    let ghost d = discovery_errors@.len() as int;
    let mut result = FixResult { actions: Vec::new(), warnings: Vec::new(), errors: discovery_errors };
    let mut writes: Vec<(String, Yaml)> = Vec::new();
    assert(actions_view(result.actions@) =~= first_actions(fsv.take(0)));
    assert(result.errors@.skip(d) =~= Seq::<Error>::empty());
    assert(fix_errs(result.errors@.skip(d)) =~= first_errors(fsv.take(0)));
    assert(writes_view(writes@) =~= first_writes(fsv.take(0)));
    for f in it: files.into_iter()
        invariant
            it.seq() == files@,
            fsv == sources_view(files@),
            result.warnings@.len() == 0,
            d == discovery_errors@.len(),
            d <= result.errors@.len(),
            result.errors@.take(d) == discovery_errors@,
            actions_view(result.actions@) == first_actions(fsv.take(it.index() as int)),
            fix_errs(result.errors@.skip(d)) == first_errors(fsv.take(it.index() as int)),
            writes_view(writes@) == first_writes(fsv.take(it.index() as int)),
    {
        let ghost k = it.index() as int;
        let ghost fv = source_view(f);
        assert(fsv[k] == fv);
        assert(fsv.take(k + 1).drop_last() =~= fsv.take(k));
        let ghost acts = actions_view(result.actions@);
        let ghost errs = fix_errs(result.errors@.skip(d));
        let ghost wrs = writes_view(writes@);
        let ghost errs_before = result.errors@;
        let TableSource { path, stem, document } = f;
        match document {
            Err(m) => {
                let ghost mv = m@;
                push_error(&mut result.errors, Error::Yaml(m), Ghost(d));
                assert(fix_errs(result.errors@.skip(d)) =~= errs.push(FixErr::Parse(mv)));
            },
            Ok(doc) => {
                let mut doc = doc;
                let fix = fix_id(&mut doc, stem.as_str());
                match fix {
                    IdFix::NotMapping => {
                        let e = Error::Load(
                            LoadError::InvalidFormat { path, reason: "YAML root is not a mapping".to_owned() },
                        );
                        push_error(&mut result.errors, e, Ghost(d));
                        assert(fix_errs(result.errors@.skip(d)) =~= errs.push(fix_err(e)));
                    },
                    IdFix::Unchanged => {
                        result.actions.push(FixAction::Unchanged { path });
                        assert(actions_view(result.actions@) =~= acts.push(ActionView::Unchanged(fv.path)));
                    },
                    IdFix::Corrected(old_id) => {
                        let a = FixAction::Corrected { path: path.clone(), old_id, id: stem };
                        writes.push((path, doc));
                        result.actions.push(a);
                        assert(actions_view(result.actions@) =~= acts.push(action_view(a)));
                        assert(writes_view(writes@) =~= wrs.push((fv.path, yaml_view(doc))));
                    },
                    IdFix::Added => {
                        let a = FixAction::Added { path: path.clone(), id: stem };
                        writes.push((path, doc));
                        result.actions.push(a);
                        assert(actions_view(result.actions@) =~= acts.push(action_view(a)));
                        assert(writes_view(writes@) =~= wrs.push((fv.path, yaml_view(doc))));
                    },
                }
            },
        }
    }
    assert(fsv.take(fsv.len() as int) =~= fsv);
    proof {
        lemma_first_errors_len(fsv);
    }
    (result, writes)
}

fn push_error(errors: &mut Vec<Error>, e: Error, Ghost(d): Ghost<int>)
    requires
        0 <= d <= old(errors)@.len(),
    ensures
        final(errors)@ == old(errors)@.push(e),
        final(errors)@.take(d) == old(errors)@.take(d),
        final(errors)@.skip(d) == old(errors)@.skip(d).push(e),
{
    errors.push(e);
    assert(errors@.take(d) =~= old(errors)@.take(d));
    assert(errors@.skip(d) =~= old(errors)@.skip(d).push(e));
}

proof fn lemma_first_errors_len(fs: Seq<SourceView>)
    ensures
        first_errors(fs).len() <= fs.len(),
    decreases fs.len(),
{
    if fs.len() > 0 {
        lemma_first_errors_len(fs.drop_last());
    }
}

/// The renamings the first pass made: (old id, new id) of each
/// correction, in order.
pub open spec fn correction_pairs(acts: Seq<ActionView>) -> Seq<(Seq<char>, Seq<char>)>
    decreases acts.len(),
{
    if acts.len() == 0 {
        Seq::empty()
    } else {
        correction_pairs(acts.drop_last()) + match acts.last() {
            ActionView::Corrected(_, old, id) => seq![(old, id)],
            _ => Seq::empty(),
        }
    }
}

/// A file as the first pass leaves it: with the document it wrote back,
/// or as it was when nothing was written.
pub open spec fn after_first_pass(f: SourceView) -> SourceView {
    match first_pass(f) {
        FirstPass::Done(_, Some(nv)) => SourceView { path: f.path, stem: f.stem, document: Ok(nv) },
        _ => f,
    }
}

/// The files as the first pass leaves them.
pub open spec fn after_first_passes(fs: Seq<SourceView>) -> Seq<SourceView> {
    fs.map_values(|f: SourceView| after_first_pass(f))
}

proof fn lemma_first_pass_again(f: SourceView)
    ensures
        first_pass(after_first_pass(f)) matches FirstPass::Done(a, w) ==> a == ActionView::Unchanged(
            f.path,
        ) && w is None,
        first_pass(f) is Failed ==> first_pass(after_first_pass(f)) == first_pass(f),
        first_pass(f) is Done ==> first_pass(after_first_pass(f)) is Done,
{
    if let FirstPass::Done(_, Some(nv)) = first_pass(f) {
        let v = f.document->Ok_0;
        assert(untag(v) is Mapping);
        lemma_fixed_id_is_stem(v, f.stem);
    }
}

proof fn lemma_unchanged_corrects_nothing(acts: Seq<ActionView>)
    requires
        forall|i: int| 0 <= i < acts.len() ==> #[trigger] acts[i] is Unchanged,
    ensures
        correction_pairs(acts).len() == 0,
    decreases acts.len(),
{
    if acts.len() > 0 {
        assert(acts[acts.len() - 1] is Unchanged);
        lemma_unchanged_corrects_nothing(acts.drop_last());
    }
}

proof fn lemma_first_passes_again(fs: Seq<SourceView>)
    ensures
        first_writes(after_first_passes(fs)).len() == 0,
        first_errors(after_first_passes(fs)) == first_errors(fs),
        first_actions(after_first_passes(fs)).len() == first_actions(fs).len(),
        forall|i: int|
            0 <= i < first_actions(after_first_passes(fs)).len() ==> #[trigger] first_actions(
                after_first_passes(fs),
            )[i] is Unchanged,
    decreases fs.len(),
{
    if fs.len() > 0 {
        let init = fs.drop_last();
        let again = after_first_passes(fs);
        assert(again.drop_last() =~= after_first_passes(init));
        assert(again.last() == after_first_pass(fs.last()));
        lemma_first_passes_again(init);
        lemma_first_pass_again(fs.last());
        let prev = first_actions(after_first_passes(init));
        assert forall|i: int| 0 <= i < first_actions(again).len() implies #[trigger] first_actions(
            again,
        )[i] is Unchanged by {
            if i < prev.len() {
                assert(first_actions(again)[i] == prev[i]);
            }
        }
    }
}

/// Fixing ids is idempotent: on the files as a first pass leaves them, a
/// second pass writes nothing, reports each file it reads as unchanged,
/// corrects no id (so there are no references to rename), and fails on
/// exactly the files the first pass failed on, for the same reasons.
pub proof fn lemma_fix_ids_idempotent(fs: Seq<SourceView>)
    ensures
        first_writes(after_first_passes(fs)).len() == 0,
        first_errors(after_first_passes(fs)) == first_errors(fs),
        first_actions(after_first_passes(fs)).len() == first_actions(fs).len(),
        forall|i: int|
            0 <= i < first_actions(after_first_passes(fs)).len() ==> #[trigger] first_actions(
                after_first_passes(fs),
            )[i] is Unchanged,
        correction_pairs(first_actions(after_first_passes(fs))).len() == 0,
{
    lemma_first_passes_again(fs);
    lemma_unchanged_corrects_nothing(first_actions(after_first_passes(fs)));
}

/// The renamings the first pass made, in order.
pub fn corrections_from(actions: &Vec<FixAction>) -> (r: Vec<(String, String)>)
    ensures
        pair_strings(r@) == correction_pairs(actions_view(actions@)),
{
    let ghost av = actions_view(actions@);
    let mut r: Vec<(String, String)> = Vec::new();
    let mut i: usize = 0;
    assert(pair_strings(r@) =~= correction_pairs(av.take(0)));
    while i < actions.len()
        invariant
            i <= actions@.len(),
            av == actions_view(actions@),
            pair_strings(r@) == correction_pairs(av.take(i as int)),
        decreases actions@.len() - i,
    {
        assert(av.take(i + 1).drop_last() =~= av.take(i as int));
        assert(av[i as int] == action_view(actions@[i as int]));
        let ghost before = pair_strings(r@);
        match &actions[i] {
            FixAction::Corrected { old_id, id, .. } => {
                r.push((old_id.clone(), id.clone()));
                assert(pair_strings(r@) =~= before.push((old_id@, id@)));
            },
            _ => {},
        }
        assert(pair_strings(r@) =~= correction_pairs(av.take(i + 1)));
        i = i + 1;
    }
    assert(av.take(i as int) =~= av);
    r
}

/// The warnings for renamed references `ps` in file `path`.
pub open spec fn stale_warnings(path: Seq<char>, ps: Seq<(Seq<char>, Seq<char>)>) -> Seq<
    (Seq<char>, Seq<char>, Seq<char>),
> {
    ps.map_values(|p: (Seq<char>, Seq<char>)| (path, p.0, p.1))
}

/// The actions for references `ps` renamed in file `path`.
pub open spec fn updated_actions(path: Seq<char>, ps: Seq<(Seq<char>, Seq<char>)>) -> Seq<ActionView> {
    ps.map_values(|p: (Seq<char>, Seq<char>)| ActionView::UpdatedReference(path, p.0, p.1))
}

/// The second pass over one file: its errors, actions, warnings and the
/// document to write back.
pub struct SecondPass {
    pub errors: Seq<FixErr>,
    pub actions: Seq<ActionView>,
    pub warnings: Seq<(Seq<char>, Seq<char>, Seq<char>)>,
    pub writes: Seq<(Seq<char>, YamlView)>,
}

pub open spec fn second_pass(f: SourceView, c: CorrView, mode: RefHandling) -> SecondPass {
    match f.document {
        Err(m) => SecondPass {
            errors: seq![FixErr::Parse(m)],
            actions: Seq::empty(),
            warnings: Seq::empty(),
            writes: Seq::empty(),
        },
        Ok(v) => {
            let ps = corrected(refs_of(v), c);
            match mode {
                RefHandling::Update => if ps.len() == 0 {
                    SecondPass { errors: Seq::empty(), actions: Seq::empty(), warnings: Seq::empty(), writes: Seq::empty() }
                } else {
                    SecondPass {
                        errors: Seq::empty(),
                        actions: updated_actions(f.path, ps),
                        warnings: Seq::empty(),
                        writes: seq![(f.path, upd_root(v, c))],
                    }
                },
                RefHandling::WarnOnly => SecondPass {
                    errors: Seq::empty(),
                    actions: Seq::empty(),
                    warnings: stale_warnings(f.path, ps),
                    writes: Seq::empty(),
                },
            }
        },
    }
}

/// The second pass over files `fs`, all together.
pub open spec fn second_passes(fs: Seq<SourceView>, c: CorrView, mode: RefHandling) -> SecondPass
    decreases fs.len(),
{
    if fs.len() == 0 {
        SecondPass { errors: Seq::empty(), actions: Seq::empty(), warnings: Seq::empty(), writes: Seq::empty() }
    } else {
        let a = second_passes(fs.drop_last(), c, mode);
        let b = second_pass(fs.last(), c, mode);
        SecondPass {
            errors: a.errors + b.errors,
            actions: a.actions + b.actions,
            warnings: a.warnings + b.warnings,
            writes: a.writes + b.writes,
        }
    }
}

pub open spec fn stems_of(fs: Seq<SourceView>) -> Seq<Seq<char>> {
    fs.map_values(|f: SourceView| f.stem)
}

fn fix_file_references(result: &mut FixResult, f: TableSource, c: &Corrections, mode: RefHandling) -> (w: Option<
    (String, Yaml),
>)
    ensures
        ({
            let step = second_pass(source_view(f), c@, mode);
            &&& actions_view(final(result).actions@) == actions_view(old(result).actions@) + step.actions
            &&& warnings_view(final(result).warnings@) == warnings_view(old(result).warnings@) + step.warnings
            &&& final(result).errors@.len() >= old(result).errors@.len()
            &&& final(result).errors@.take(old(result).errors@.len() as int) == old(result).errors@
            &&& fix_errs(final(result).errors@.skip(old(result).errors@.len() as int)) == step.errors
            &&& step.writes == match w {
                Some(x) => seq![(x.0@, yaml_view(x.1))],
                None => Seq::<(Seq<char>, YamlView)>::empty(),
            }
        }),
{
    let ghost fv = source_view(f);
    let ghost cv = c@;
    let ghost d = result.errors@.len() as int;
    let ghost step = second_pass(fv, cv, mode);
    let ghost errs = fix_errs(result.errors@.skip(d));
    let ghost acts = actions_view(result.actions@);
    let ghost warns = warnings_view(result.warnings@);
    assert(errs =~= Seq::<FixErr>::empty());
    assert(result.errors@.take(d) =~= result.errors@);
        let TableSource { path, stem: _, document } = f;
        match document {
            Err(m) => {
                let ghost mv = m@;
                push_error(&mut result.errors, Error::Yaml(m), Ghost(d));
                assert(fix_errs(result.errors@.skip(d)) =~= errs + step.errors);
                assert(acts =~= acts + step.actions);
                assert(warns =~= warns + step.warnings);
                None
            },
            Ok(doc) => {
                let mut doc = doc;
                let ghost v = yaml_view(doc);
                assert(errs =~= errs + step.errors);
                match mode {
                    RefHandling::Update => {
                        let updated = update_references(&mut doc, &c);
                        let ghost ps = pair_strings(updated@);
                        let ghost w_now = result.warnings@;
                        let ghost e_now = result.errors@;
                        if updated.len() > 0 {
                            let n = updated.len();
                            let mut j: usize = 0;
                            for pr in jt: updated.into_iter()
                                invariant
                                    jt.seq() == updated@,
                                    ps == pair_strings(updated@),
                                    path@ == fv.path,
                                    result.warnings@ == w_now,
                                    result.errors@ == e_now,
                                    actions_view(result.actions@) == acts + updated_actions(fv.path, ps).take(
                                        jt.index() as int,
                                    ),
                            {
                                let ghost jj = jt.index() as int;
                                let ghost before = actions_view(result.actions@);
                                assert(pr == updated@[jj]);
                                assert(ps[jj] == (pr.0@, pr.1@));
                                let a = FixAction::UpdatedReference { path: path.clone(), old_ref: pr.0, new_ref: pr.1 };
                                result.actions.push(a);
                                assert(actions_view(result.actions@) =~= before.push(action_view(a)));
                                assert(updated_actions(fv.path, ps).take(jj + 1) =~= updated_actions(fv.path, ps).take(
                                    jj,
                                ).push(updated_actions(fv.path, ps)[jj]));
                            }
                            assert(updated_actions(fv.path, ps).take(ps.len() as int) =~= updated_actions(fv.path, ps));
                            assert(warns =~= warns + step.warnings);
                            Some((path, doc))
                        } else {
                            assert(acts =~= acts + step.actions);
                            assert(warns =~= warns + step.warnings);
                            None
                        }
                    },
                    RefHandling::WarnOnly => {
                        let refs = extract_references(&doc);
                        let ghost rs = strings_view(refs@);
                        let ghost a_now = result.actions@;
                        let ghost e_now = result.errors@;
                        let mut j: usize = 0;
                        assert(warnings_view(result.warnings@) =~= warns + stale_warnings(fv.path, corrected(rs.take(0), cv)));
                        while j < refs.len()
                            invariant
                                j <= refs@.len(),
                                rs == strings_view(refs@),
                                cv == c@,
                                path@ == fv.path,
                                result.actions@ == a_now,
                                result.errors@ == e_now,
                                warnings_view(result.warnings@) == warns + stale_warnings(
                                    fv.path,
                                    corrected(rs.take(j as int), cv),
                                ),
                            decreases refs@.len() - j,
                        {
                            assert(rs.take(j + 1).drop_last() =~= rs.take(j as int));
                            assert(rs[j as int] == refs@[j as int]@);
                            let ghost before = warnings_view(result.warnings@);
                            match c.get(refs[j].as_str()) {
                                Some(n) => {
                                    let w = FixWarning::StaleReference {
                                        path: path.clone(),
                                        reference: refs[j].clone(),
                                        suggested: n,
                                    };
                                    result.warnings.push(w);
                                    assert(warnings_view(result.warnings@) =~= before.push(warning_view(w)));
                                },
                                None => {},
                            }
                            let ghost tail = match fixed(cv, rs[j as int]) {
                                Some(n) => seq![(rs[j as int], n)],
                                None => Seq::<(Seq<char>, Seq<char>)>::empty(),
                            };
                            assert(corrected(rs.take(j + 1), cv) == corrected(rs.take(j as int), cv) + tail);
                            assert(stale_warnings(fv.path, corrected(rs.take(j as int), cv) + tail) =~= stale_warnings(
                                fv.path,
                                corrected(rs.take(j as int), cv),
                            ) + stale_warnings(fv.path, tail));
                            assert(warnings_view(result.warnings@) =~= warns + stale_warnings(
                                fv.path,
                                corrected(rs.take(j + 1), cv),
                            ));
                            j = j + 1;
                        }
                        assert(rs.take(j as int) =~= rs);
                        assert(acts =~= acts + step.actions);
                        None
                    },
                }
            },
        }
}

/// The second pass of fixing, run when the first corrected some ids:
/// with the renamings `pairs`, counted only towards the stems of `files`,
/// either rename the references in each file (`Update`) or warn about
/// them (`WarnOnly`). `discovery_errors` are added to the errors first;
/// the documents to write back come with their paths, in order.
pub fn fix_references(
    result: &mut FixResult,
    files: Vec<TableSource>,
    discovery_errors: Vec<Error>,
    pairs: Vec<(String, String)>,
    mode: RefHandling,
) -> (writes: Vec<(String, Yaml)>)
    ensures
        ({
            let c = CorrView { pairs: pair_strings(pairs@), stems: stems_of(sources_view(files@)) };
            let sp = second_passes(sources_view(files@), c, mode);
            &&& actions_view(final(result).actions@) == actions_view(old(result).actions@) + sp.actions
            &&& warnings_view(final(result).warnings@) == warnings_view(old(result).warnings@) + sp.warnings
            &&& final(result).errors@.take((old(result).errors@.len() + discovery_errors@.len()) as int)
                == old(result).errors@ + discovery_errors@
            &&& fix_errs(final(result).errors@.skip((old(result).errors@.len() + discovery_errors@.len()) as int))
                == sp.errors
            &&& writes_view(writes@) == sp.writes
        }),
{
    let ghost fsv = sources_view(files@);
    let ghost a0 = actions_view(result.actions@);
    let ghost w0 = warnings_view(result.warnings@);
    let ghost e0 = result.errors@;
    let mut disc = discovery_errors;
    result.errors.append(&mut disc);
    let ghost d = result.errors@.len() as int;
    assert(result.errors@.take(d) =~= e0 + discovery_errors@);
    let mut stems: Vec<String> = Vec::new();
    let mut i: usize = 0;
    assert(strings_view(stems@) =~= stems_of(fsv).take(0));
    while i < files.len()
        invariant
            i <= files@.len(),
            fsv == sources_view(files@),
            strings_view(stems@) == stems_of(fsv).take(i as int),
        decreases files@.len() - i,
    {
        assert(fsv[i as int] == source_view(files@[i as int]));
        let ghost before = strings_view(stems@);
        let st = files[i].stem.clone();
        stems.push(st);
        assert(strings_view(stems@) =~= before.push(st@));
        assert(stems_of(fsv)[i as int] == st@);
        assert(stems_of(fsv).take(i + 1) =~= stems_of(fsv).take(i as int).push(stems_of(fsv)[i as int]));
        assert(strings_view(stems@) =~= stems_of(fsv).take(i + 1));
        i = i + 1;
    }
    assert(stems_of(fsv).take(i as int) =~= stems_of(fsv));
    let c = Corrections::new(pairs, stems);
    let ghost cv = c@;
    let mut writes: Vec<(String, Yaml)> = Vec::new();
    let ghost empty = second_passes(fsv.take(0), cv, mode);
    assert(result.errors@.skip(d) =~= Seq::<Error>::empty());
    assert(fix_errs(result.errors@.skip(d)) =~= empty.errors);
    assert(actions_view(result.actions@) =~= a0 + empty.actions);
    assert(warnings_view(result.warnings@) =~= w0 + empty.warnings);
    assert(writes_view(writes@) =~= empty.writes);
    for f in it: files.into_iter()
        invariant
            it.seq() == files@,
            fsv == sources_view(files@),
            cv == c@,
            0 <= d <= result.errors@.len(),
            result.errors@.take(d) == e0 + discovery_errors@,
            fix_errs(result.errors@.skip(d)) == second_passes(fsv.take(it.index() as int), cv, mode).errors,
            actions_view(result.actions@) == a0 + second_passes(fsv.take(it.index() as int), cv, mode).actions,
            warnings_view(result.warnings@) == w0 + second_passes(fsv.take(it.index() as int), cv, mode).warnings,
            writes_view(writes@) == second_passes(fsv.take(it.index() as int), cv, mode).writes,
    {
        let ghost k = it.index() as int;
        let ghost fv = source_view(f);
        assert(fsv[k] == fv);
        assert(fsv.take(k + 1).drop_last() =~= fsv.take(k));
        let ghost prev = second_passes(fsv.take(k), cv, mode);
        let ghost step = second_pass(fv, cv, mode);
        let ghost errs = fix_errs(result.errors@.skip(d));
        let ghost acts = actions_view(result.actions@);
        let ghost warns = warnings_view(result.warnings@);
        let ghost wrs = writes_view(writes@);
        let ghost e_before = result.errors@;
        let w = fix_file_references(result, f, &c, mode);
        proof {
            let n = e_before.len() as int;
            assert(result.errors@ =~= result.errors@.take(n) + result.errors@.skip(n));
            assert(result.errors@ =~= e_before + result.errors@.skip(n));
            assert(result.errors@.skip(d) =~= e_before.skip(d) + result.errors@.skip(n));
            assert(result.errors@.take(d) =~= e_before.take(d));
            assert(fix_errs(result.errors@.skip(d)) =~= errs + step.errors);
        }
        match w {
            Some(x) => {
                writes.push(x);
            },
            None => {},
        }
        assert(writes_view(writes@) =~= wrs + step.writes);
        assert(second_passes(fsv.take(k + 1), cv, mode) == SecondPass {
            errors: prev.errors + step.errors,
            actions: prev.actions + step.actions,
            warnings: prev.warnings + step.warnings,
            writes: prev.writes + step.writes,
        });
        assert(actions_view(result.actions@) =~= a0 + second_passes(fsv.take(k + 1), cv, mode).actions);
        assert(warnings_view(result.warnings@) =~= w0 + second_passes(fsv.take(k + 1), cv, mode).warnings);
        assert(fix_errs(result.errors@.skip(d)) =~= second_passes(fsv.take(k + 1), cv, mode).errors);
        assert(writes_view(writes@) =~= second_passes(fsv.take(k + 1), cv, mode).writes);
    }
    assert(fsv.take(fsv.len() as int) =~= fsv);
    writes
}

/// What a reference to `name` becomes: its renaming, or itself.
pub open spec fn renamed(c: CorrView, name: Seq<char>) -> Seq<char> {
    match fixed(c, name) {
        Some(n) => n,
        None => name,
    }
}

pub open spec fn opt_renamed(c: CorrView, o: Option<Seq<char>>) -> Option<Seq<char>> {
    match o {
        Some(s) => Some(renamed(c, s)),
        None => None,
    }
}

proof fn lemma_list_under_upd(
    m: Seq<(YamlView, YamlView)>,
    key: Seq<char>,
    f: spec_fn(YamlView) -> YamlView,
    other: Seq<char>,
)
    ensures
        list_under(upd_list(m, key, f), key) == list_under(m, key).map_values(f),
        YamlView::Text(other) != YamlView::Text(key) ==> list_under(upd_list(m, key, f), other) == list_under(m, other),
{
    lemma_key_index_range(m, key);
    lemma_key_index_range(m, other);
    if let Some(k) = key_index(m, key) {
        if let YamlView::List(xs) = m[k].1 {
            let x = YamlView::List(xs.map_values(f));
            lemma_key_index_keys(m, k, x, key);
            lemma_key_index_keys(m, k, x, other);
        } else {
            assert(Seq::<YamlView>::empty().map_values(f) =~= Seq::<YamlView>::empty());
        }
    } else {
        assert(Seq::<YamlView>::empty().map_values(f) =~= Seq::<YamlView>::empty());
    }
}

proof fn lemma_chain_renamed(x: YamlView, c: CorrView)
    ensures
        chain_ref(upd_chain(x, c)) == opt_renamed(c, chain_ref(x)),
{
    match untag(x) {
        YamlView::Text(s) => {
            if let Some(n) = fixed(c, s) {
                assert(untag(YamlView::Text(n)) == YamlView::Text(n));
            }
        },
        YamlView::Mapping(cm) => {
            lemma_key_index_range(cm, "table"@);
            if let Some(k) = key_index(cm, "table"@) {
                if let YamlView::Text(s) = cm[k].1 {
                    if let Some(n) = fixed(c, s) {
                        let cm2 = cm.update(k, (cm[k].0, YamlView::Text(n)));
                        lemma_untag_retag(x, YamlView::Mapping(cm2));
                        lemma_key_index_keys(cm, k, YamlView::Text(n), "table"@);
                    }
                }
            }
        },
        _ => {},
    }
}

proof fn lemma_chains_renamed(cs: Seq<YamlView>, c: CorrView)
    ensures
        chain_refs(cs.map_values(|x: YamlView| upd_chain(x, c))) == chain_refs(cs).map_values(
            |r: Seq<char>| renamed(c, r),
        ),
    decreases cs.len(),
{
    let f = |x: YamlView| upd_chain(x, c);
    let g = |r: Seq<char>| renamed(c, r);
    if cs.len() == 0 {
        assert(cs.map_values(f) =~= Seq::<YamlView>::empty());
        assert(Seq::<Seq<char>>::empty().map_values(g) =~= Seq::<Seq<char>>::empty());
    } else {
        lemma_chains_renamed(cs.drop_last(), c);
        lemma_chain_renamed(cs.last(), c);
        assert(cs.map_values(f).drop_last() =~= cs.drop_last().map_values(f));
        assert(cs.map_values(f).last() == upd_chain(cs.last(), c));
        assert(opt_seq(opt_renamed(c, chain_ref(cs.last()))) =~= opt_seq(chain_ref(cs.last())).map_values(g));
        assert((chain_refs(cs.drop_last()) + opt_seq(chain_ref(cs.last()))).map_values(g) =~= chain_refs(
            cs.drop_last(),
        ).map_values(g) + opt_seq(chain_ref(cs.last())).map_values(g));
    }
}

proof fn lemma_entry_renamed(e: YamlView, c: CorrView)
    ensures
        entry_chains(upd_entry(e, c)) == entry_chains(e).map_values(|x: YamlView| upd_chain(x, c)),
{
    let f = |x: YamlView| upd_chain(x, c);
    if let YamlView::Mapping(em) = untag(e) {
        let em2 = upd_list(em, "chain"@, f);
        lemma_untag_retag(e, YamlView::Mapping(em2));
        lemma_list_under_upd(em, "chain"@, f, "chain"@);
    } else {
        assert(Seq::<YamlView>::empty().map_values(f) =~= Seq::<YamlView>::empty());
    }
}

proof fn lemma_results_renamed(rs: Seq<YamlView>, c: CorrView)
    ensures
        result_refs(rs.map_values(|x: YamlView| upd_entry(x, c))) == result_refs(rs).map_values(
            |r: Seq<char>| renamed(c, r),
        ),
    decreases rs.len(),
{
    let f = |x: YamlView| upd_entry(x, c);
    let g = |r: Seq<char>| renamed(c, r);
    if rs.len() == 0 {
        assert(rs.map_values(f) =~= Seq::<YamlView>::empty());
        assert(Seq::<Seq<char>>::empty().map_values(g) =~= Seq::<Seq<char>>::empty());
    } else {
        lemma_results_renamed(rs.drop_last(), c);
        lemma_entry_renamed(rs.last(), c);
        lemma_chains_renamed(entry_chains(rs.last()), c);
        assert(rs.map_values(f).drop_last() =~= rs.drop_last().map_values(f));
        assert(rs.map_values(f).last() == upd_entry(rs.last(), c));
        assert((result_refs(rs.drop_last()) + chain_refs(entry_chains(rs.last()))).map_values(g)
            =~= result_refs(rs.drop_last()).map_values(g) + chain_refs(entry_chains(rs.last())).map_values(g));
    }
}

proof fn lemma_tables_renamed(ts: Seq<YamlView>, c: CorrView)
    ensures
        table_refs(ts.map_values(|x: YamlView| upd_text(x, c))) == table_refs(ts).map_values(
            |r: Seq<char>| renamed(c, r),
        ),
    decreases ts.len(),
{
    let f = |x: YamlView| upd_text(x, c);
    let g = |r: Seq<char>| renamed(c, r);
    if ts.len() == 0 {
        assert(ts.map_values(f) =~= Seq::<YamlView>::empty());
        assert(Seq::<Seq<char>>::empty().map_values(g) =~= Seq::<Seq<char>>::empty());
    } else {
        lemma_tables_renamed(ts.drop_last(), c);
        let t = ts.last();
        if let YamlView::Text(s) = untag(t) {
            if let Some(n) = fixed(c, s) {
                assert(untag(YamlView::Text(n)) == YamlView::Text(n));
            }
        }
        assert(table_ref(upd_text(t, c)) == opt_renamed(c, table_ref(t)));
        assert(ts.map_values(f).drop_last() =~= ts.drop_last().map_values(f));
        assert(ts.map_values(f).last() == upd_text(t, c));
        assert(opt_seq(opt_renamed(c, table_ref(t))) =~= opt_seq(table_ref(t)).map_values(g));
        assert((table_refs(ts.drop_last()) + opt_seq(table_ref(t))).map_values(g) =~= table_refs(
            ts.drop_last(),
        ).map_values(g) + opt_seq(table_ref(t)).map_values(g));
    }
}

/// A law of renaming references: after [`update_references`], a
/// document's references are its old ones, in the same order, each
/// renamed where it has a renaming and kept where it has none.
pub proof fn lemma_update_renames_references(v: YamlView, c: CorrView)
    ensures
        refs_of(upd_root(v, c)) == refs_of(v).map_values(|r: Seq<char>| renamed(c, r)),
{
    let g = |r: Seq<char>| renamed(c, r);
    if let YamlView::Mapping(m) = untag(v) {
        let fe = |x: YamlView| upd_entry(x, c);
        let ft = |x: YamlView| upd_text(x, c);
        let m1 = upd_list(m, "results"@, fe);
        let m2 = upd_list(m1, "tables"@, ft);
        lemma_untag_retag(v, YamlView::Mapping(m2));
        reveal_strlit("tables");
        reveal_strlit("results");
        assert("results"@.len() != "tables"@.len());
        lemma_list_under_upd(m, "results"@, fe, "tables"@);
        lemma_list_under_upd(m1, "tables"@, ft, "results"@);
        lemma_results_renamed(list_under(m, "results"@), c);
        lemma_tables_renamed(list_under(m, "tables"@), c);
        assert((result_refs(list_under(m, "results"@)) + table_refs(list_under(m, "tables"@))).map_values(g)
            =~= result_refs(list_under(m, "results"@)).map_values(g) + table_refs(list_under(m, "tables"@)).map_values(g));
    } else {
        assert(Seq::<Seq<char>>::empty().map_values(g) =~= Seq::<Seq<char>>::empty());
    }
}

} // verus!
