//! Finding tables by name, tag or namespace. Results come sorted by
//! fully qualified id.

use vstd::prelude::*;
use crate::models::Table;
use crate::registry::{keys_distinct, Registry};
use crate::text::{
    chars_of, chars_less, chars_contain, chars_start_with, chars_equal, seq_less, contains_run,
    is_prefix_of, lemma_seq_less_total, lemma_seq_less_transitive,
};

verus! {

/// What a search result is, as a value: the id and the table.
pub open spec fn result_view(r: Seq<(&str, &Table)>) -> Seq<(Seq<char>, Table)> {
    r.map_values(|e: (&str, &Table)| (e.0@, *e.1))
}

/// Index of the first element whose id is strictly greater than `key`.
pub open spec fn first_greater(s: Seq<(Seq<char>, Table)>, key: Seq<char>) -> int
    decreases s.len(),
{
    if s.len() == 0 {
        0
    } else if seq_less(key, s[0].0) {
        0
    } else {
        1 + first_greater(s.drop_first(), key)
    }
}

/// Insert `x` after every element whose id is not greater than its id.
pub open spec fn insert_by_id(s: Seq<(Seq<char>, Table)>, x: (Seq<char>, Table)) -> Seq<
    (Seq<char>, Table),
> {
    s.insert(first_greater(s, x.0), x)
}

/// Stable insertion sort by id.
pub open spec fn sort_by_id(s: Seq<(Seq<char>, Table)>) -> Seq<(Seq<char>, Table)>
    decreases s.len(),
{
    if s.len() == 0 {
        s
    } else {
        insert_by_id(sort_by_id(s.drop_last()), s.last())
    }
}

/// The elements of `s` that satisfy `p`, in order.
pub open spec fn keep(s: Seq<(Seq<char>, Table)>, p: spec_fn((Seq<char>, Table)) -> bool) -> Seq<
    (Seq<char>, Table),
>
    decreases s.len(),
{
    if s.len() == 0 {
        s
    } else if p(s.last()) {
        keep(s.drop_last(), p).push(s.last())
    } else {
        keep(s.drop_last(), p)
    }
}

/// Unicode lowercasing of a string (std `str::to_lowercase`).
pub uninterp spec fn lowercase(s: Seq<char>) -> Seq<char>;

/// std's `str::to_lowercase`. The contract claims only that its result
/// is [`lowercase`] of the characters of `s` (so equal strings lowercase
/// alike); what lowercasing does to each character is left unsaid.
#[verifier::external_body]
fn to_lowercase(s: &str) -> (r: String)
    ensures
        r@ == lowercase(s@),
{
    s.to_lowercase()
}

/// A name match: the lowercased name contains the lowercased query.
pub open spec fn name_matches(query: Seq<char>) -> spec_fn((Seq<char>, Table)) -> bool {
    |e: (Seq<char>, Table)| contains_run(lowercase(e.1.spec_name()), lowercase(query))
}

/// A tag match: some tag of the table equals `tag` exactly.
pub open spec fn tag_matches(tag: Seq<char>) -> spec_fn((Seq<char>, Table)) -> bool {
    |e: (Seq<char>, Table)| exists|i: int| 0 <= i < e.1.spec_tags().len() && #[trigger] e.1.spec_tags()[i]@ == tag
}

/// The id prefix a namespace search uses: the namespace itself when it
/// already ends with a dot, otherwise the namespace followed by a dot.
pub open spec fn namespace_prefix(namespace: Seq<char>) -> Seq<char> {
    if namespace.len() > 0 && namespace.last() == '.' {
        namespace
    } else {
        namespace.push('.')
    }
}

/// A namespace match: the id begins with the namespace prefix.
pub open spec fn namespace_matches(namespace: Seq<char>) -> spec_fn((Seq<char>, Table)) -> bool {
    |e: (Seq<char>, Table)| is_prefix_of(namespace_prefix(namespace), e.0)
}

/// Sort search results by id, ascending; results with equal ids keep
/// their order.
pub fn sort_by_fqid<'a>(results: Vec<(&'a str, &'a Table)>) -> (r: Vec<(&'a str, &'a Table)>)
    ensures
        result_view(r@) == sort_by_id(result_view(results@)),
{
    let mut out: Vec<(&'a str, &'a Table)> = Vec::new();
    let mut i: usize = 0;
    while i < results.len()
        invariant
            i <= results@.len(),
            result_view(out@) == sort_by_id(result_view(results@).take(i as int)),
        decreases results@.len() - i,
    {
        let x = results[i];
        let key = chars_of(x.0);
        let mut p: usize = 0;
        let ghost s = result_view(out@);
        assert(s.skip(0) =~= s);
        while p < out.len()
            invariant
                p <= out@.len(),
                s == result_view(out@),
                key@ == x.0@,
                first_greater(s, key@) == p + first_greater(s.skip(p as int), key@),
            ensures
                p <= out@.len(),
                first_greater(s, key@) == p,
            decreases out@.len() - p,
        {
            let k = chars_of(out[p].0);
            assert(s.skip(p as int)[0] == s[p as int]);
            if chars_less(key.as_slice(), k.as_slice()) {
                break;
            }
            assert(s.skip(p as int).drop_first() =~= s.skip(p + 1));
            p = p + 1;
        }
        out.insert(p, x);
        proof {
            let t = result_view(results@).take(i + 1);
            assert(t.drop_last() =~= result_view(results@).take(i as int));
            assert(t.last() == (x.0@, *x.1));
            assert(result_view(out@) =~= s.insert(p as int, (x.0@, *x.1)));
        }
        i = i + 1;
    }
    assert(result_view(results@).take(results@.len() as int) =~= result_view(results@));
    out
}

fn select_sorted<'a>(
    all: Vec<(&'a str, &'a Table)>,
    flags: Vec<bool>,
    Ghost(p): Ghost<spec_fn((Seq<char>, Table)) -> bool>,
) -> (r: Vec<(&'a str, &'a Table)>)
    requires
        flags@.len() == all@.len(),
        forall|i: int| 0 <= i < all@.len() ==> flags@[i] == p(result_view(all@)[i]),
    ensures
        result_view(r@) == sort_by_id(keep(result_view(all@), p)),
{
    let mut kept: Vec<(&'a str, &'a Table)> = Vec::new();
    let mut i: usize = 0;
    while i < all.len()
        invariant
            i <= all@.len(),
            flags@.len() == all@.len(),
            forall|k: int| 0 <= k < all@.len() ==> flags@[k] == p(result_view(all@)[k]),
            result_view(kept@) == keep(result_view(all@).take(i as int), p),
        decreases all@.len() - i,
    {
        let ghost t = result_view(all@).take(i + 1);
        assert(t.drop_last() =~= result_view(all@).take(i as int));
        assert(t.last() == result_view(all@)[i as int]);
        if flags[i] {
            kept.push(all[i]);
            assert(result_view(kept@) =~= keep(result_view(all@).take(i as int), p).push(t.last()));
        }
        i = i + 1;
    }
    assert(result_view(all@).take(all@.len() as int) =~= result_view(all@));
    sort_by_fqid(kept)
}

proof fn lemma_all_view(reg: &Registry, all: Seq<(&str, &Table)>)
    requires
        all.len() == reg@.len(),
        forall|i: int| 0 <= i < all.len() ==> all[i].0@ == reg@[i].0 && *all[i].1 == reg@[i].1,
    ensures
        result_view(all) == reg@,
{
    assert(result_view(all) =~= reg@);
}

/// Tables whose name contains `query`, ignoring case, sorted by id.
pub fn search_by_name<'a>(registry: &'a Registry, query: &str) -> (r: Vec<(&'a str, &'a Table)>)
    ensures
        result_view(r@) == sort_by_id(keep(registry@, name_matches(query@))),
{
    let all = registry.all_tables();
    proof {
        lemma_all_view(registry, all@);
    }
    let q = to_lowercase(query);
    let qv = chars_of(q.as_str());
    let mut flags: Vec<bool> = Vec::new();
    let mut i: usize = 0;
    while i < all.len()
        invariant
            i <= all@.len(),
            result_view(all@) == registry@,
            qv@ == lowercase(query@),
            flags@.len() == i,
            forall|k: int| 0 <= k < i ==> flags@[k] == name_matches(query@)(registry@[k]),
        decreases all@.len() - i,
    {
        let name = to_lowercase(all[i].1.name());
        let nv = chars_of(name.as_str());
        assert(result_view(all@)[i as int] == registry@[i as int]);
        flags.push(chars_contain(nv.as_slice(), qv.as_slice()));
        i = i + 1;
    }
    select_sorted(all, flags, Ghost(name_matches(query@)))
}

/// Whether one of `tags` equals `tag` exactly.
fn has_tag(tags: &[String], tag: &str) -> (r: bool)
    ensures
        r == exists|i: int| 0 <= i < tags@.len() && #[trigger] tags@[i]@ == tag@,
{
    let mut i: usize = 0;
    while i < tags.len()
        invariant
            i <= tags@.len(),
            forall|k: int| 0 <= k < i ==> tags@[k]@ != tag@,
        decreases tags@.len() - i,
    {
        if crate::text::str_equal(tags[i].as_str(), tag) {
            return true;
        }
        i = i + 1;
    }
    false
}

/// Tables carrying exactly `tag` (case-sensitive), sorted by id.
pub fn search_by_tag<'a>(registry: &'a Registry, tag: &str) -> (r: Vec<(&'a str, &'a Table)>)
    ensures
        result_view(r@) == sort_by_id(keep(registry@, tag_matches(tag@))),
{
    let all = registry.all_tables();
    proof {
        lemma_all_view(registry, all@);
    }
    let mut flags: Vec<bool> = Vec::new();
    let mut i: usize = 0;
    while i < all.len()
        invariant
            i <= all@.len(),
            result_view(all@) == registry@,
            flags@.len() == i,
            forall|k: int| 0 <= k < i ==> flags@[k] == tag_matches(tag@)(registry@[k]),
        decreases all@.len() - i,
    {
        assert(result_view(all@)[i as int] == registry@[i as int]);
        let tags = all[i].1.tags();
        let b = has_tag(tags, tag);
        assert(tags@ == registry@[i as int].1.spec_tags());
        assert(b == tag_matches(tag@)(registry@[i as int])) by {
            if b {
                let j = choose|j: int| 0 <= j < tags@.len() && #[trigger] tags@[j]@ == tag@;
                assert(registry@[i as int].1.spec_tags()[j]@ == tag@);
            }
            if tag_matches(tag@)(registry@[i as int]) {
                let j = choose|j: int|
                    0 <= j < registry@[i as int].1.spec_tags().len()
                        && #[trigger] registry@[i as int].1.spec_tags()[j]@ == tag@;
                assert(tags@[j]@ == tag@);
            }
        }
        flags.push(b);
        i = i + 1;
    }
    select_sorted(all, flags, Ghost(tag_matches(tag@)))
}

/// Tables whose id lies in `namespace` (the id begins with the
/// namespace followed by a dot), sorted by id.
pub fn search_by_namespace<'a>(registry: &'a Registry, namespace: &str) -> (r: Vec<
    (&'a str, &'a Table),
>)
    ensures
        result_view(r@) == sort_by_id(keep(registry@, namespace_matches(namespace@))),
{
    let all = registry.all_tables();
    proof {
        lemma_all_view(registry, all@);
    }
    let mut prefix = chars_of(namespace);
    let n = prefix.len();
    if !(n > 0 && prefix[n - 1] == '.') {
        prefix.push('.');
    }
    assert(prefix@ == namespace_prefix(namespace@));
    let mut flags: Vec<bool> = Vec::new();
    let mut i: usize = 0;
    while i < all.len()
        invariant
            i <= all@.len(),
            result_view(all@) == registry@,
            prefix@ == namespace_prefix(namespace@),
            flags@.len() == i,
            forall|k: int| 0 <= k < i ==> flags@[k] == namespace_matches(namespace@)(registry@[k]),
        decreases all@.len() - i,
    {
        assert(result_view(all@)[i as int] == registry@[i as int]);
        let idv = chars_of(all[i].0);
        flags.push(chars_start_with(idv.as_slice(), prefix.as_slice()));
        i = i + 1;
    }
    select_sorted(all, flags, Ghost(namespace_matches(namespace@)))
}

/// `t` is a tag of some registered table.
pub open spec fn tag_in_registry(s: Seq<(Seq<char>, Table)>, t: Seq<char>) -> bool {
    exists|i: int, j: int|
        0 <= i < s.len() && 0 <= j < s[i].1.spec_tags().len() && #[trigger] s[i].1.spec_tags()[j]@
            == t
}

/// The characters of each string in a sequence.
pub open spec fn str_views(s: Seq<&str>) -> Seq<Seq<char>> {
    s.map_values(|x: &str| x@)
}

/// Strictly increasing in code point order (so free of repeats).
pub open spec fn strictly_sorted(s: Seq<Seq<char>>) -> bool {
    forall|i: int, j: int| 0 <= i < j < s.len() ==> seq_less(s[i], s[j])
}

/// Add `t` to the strictly sorted `out` unless it is already there.
fn insert_unique<'a>(out: &mut Vec<&'a str>, t: &'a str)
    requires
        strictly_sorted(str_views(old(out)@)),
    ensures
        strictly_sorted(str_views(final(out)@)),
        forall|v: Seq<char>|
            #[trigger] str_views(final(out)@).contains(v) <==> (str_views(old(out)@).contains(v) || v == t@),
{
    let ghost s = str_views(out@);
    let tv = chars_of(t);
    let mut p: usize = 0;
    while p < out.len()
        invariant
            p <= out@.len(),
            s == str_views(out@),
            tv@ == t@,
            forall|k: int| 0 <= k < p ==> seq_less(s[k], t@),
        ensures
            p <= out@.len(),
            forall|k: int| 0 <= k < p ==> seq_less(s[k], t@),
            p < out@.len() ==> !seq_less(s[p as int], t@),
        decreases out@.len() - p,
    {
        let kv = chars_of(out[p]);
        if !chars_less(kv.as_slice(), tv.as_slice()) {
            break;
        }
        p = p + 1;
    }
    if p < out.len() {
        let kv = chars_of(out[p]);
        if chars_equal(kv.as_slice(), tv.as_slice()) {
            return;
        }
        proof {
            lemma_seq_less_total(s[p as int], t@);
        }
    }
    proof {
        assert forall|k: int| p <= k < s.len() implies seq_less(t@, s[k]) by {
            if k > p {
                lemma_seq_less_transitive(t@, s[p as int], s[k]);
            }
        }
    }
    out.insert(p, t);
    let ghost s2 = str_views(out@);
    assert(s2 =~= s.insert(p as int, t@));
    assert forall|v: Seq<char>| s2.contains(v) <==> (s.contains(v) || v == t@) by {
        if s2.contains(v) {
            let k = choose|k: int| 0 <= k < s2.len() && s2[k] == v;
            if k < p {
                assert(s[k] == v);
            } else if k > p {
                assert(s[k - 1] == v);
            }
        }
        if s.contains(v) {
            let k = choose|k: int| 0 <= k < s.len() && s[k] == v;
            if k < p {
                assert(s2[k] == v);
            } else {
                assert(s2[k + 1] == v);
            }
        }
        if v == t@ {
            assert(s2[p as int] == v);
        }
    }
}

/// Every distinct tag used in the registry, sorted in code point order.
pub fn collect_tags<'a>(registry: &'a Registry) -> (r: Vec<&'a str>)
    ensures
        strictly_sorted(str_views(r@)),
        forall|t: Seq<char>|
            #[trigger] str_views(r@).contains(t) <==> tag_in_registry(registry@, t),
{
    let all = registry.all_tables();
    proof {
        lemma_all_view(registry, all@);
    }
    let mut out: Vec<&'a str> = Vec::new();
    let mut i: usize = 0;
    while i < all.len()
        invariant
            i <= all@.len(),
            result_view(all@) == registry@,
            strictly_sorted(str_views(out@)),
            forall|t: Seq<char>|
                #[trigger] str_views(out@).contains(t) <==> tag_in_registry(
                    registry@.take(i as int),
                    t,
                ),
        decreases all@.len() - i,
    {
        assert(result_view(all@)[i as int] == registry@[i as int]);
        let tags = all[i].1.tags();
        let ghost prior = str_views(out@);
        let mut j: usize = 0;
        while j < tags.len()
            invariant
                i < all@.len(),
                j <= tags@.len(),
                result_view(all@) == registry@,
                tags@ == registry@[i as int].1.spec_tags(),
                strictly_sorted(str_views(out@)),
                forall|t: Seq<char>|
                    #[trigger] str_views(out@).contains(t) <==> (prior.contains(t) || exists|
                        m: int,
                    |
                        0 <= m < j && #[trigger] tags@[m]@ == t),
            decreases tags@.len() - j,
        {
            insert_unique(&mut out, tags[j].as_str());
            j = j + 1;
        }
        proof {
            let s = registry@;
            let ti = s.take(i + 1);
            assert forall|t: Seq<char>|
                str_views(out@).contains(t) <==> tag_in_registry(ti, t) by {
                if tag_in_registry(ti, t) {
                    let (a, b) = choose|a: int, b: int|
                        0 <= a < ti.len() && 0 <= b < ti[a].1.spec_tags().len()
                            && #[trigger] ti[a].1.spec_tags()[b]@ == t;
                    if a == i {
                        assert(tags@[b]@ == t);
                    } else {
                        assert(s.take(i as int)[a].1.spec_tags()[b]@ == t);
                        assert(tag_in_registry(s.take(i as int), t));
                    }
                }
                if prior.contains(t) {
                    assert(tag_in_registry(s.take(i as int), t));
                    let (a, b) = choose|a: int, b: int|
                        0 <= a < s.take(i as int).len() && 0 <= b < s.take(
                            i as int,
                        )[a].1.spec_tags().len() && #[trigger] s.take(
                            i as int,
                        )[a].1.spec_tags()[b]@ == t;
                    assert(ti[a].1.spec_tags()[b]@ == t);
                }
                if exists|m: int| 0 <= m < tags@.len() && #[trigger] tags@[m]@ == t {
                    let m = choose|m: int| 0 <= m < tags@.len() && #[trigger] tags@[m]@ == t;
                    assert(ti[i as int].1.spec_tags()[m]@ == t);
                }
            }
        }
        i = i + 1;
    }
    assert(registry@.take(all@.len() as int) =~= registry@);
    out
}

/// No id of `s` comes before the id of an earlier element.
pub open spec fn sorted_by_id(s: Seq<(Seq<char>, Table)>) -> bool {
    forall|i: int, j: int| 0 <= i < j < s.len() ==> !seq_less(#[trigger] s[j].0, #[trigger] s[i].0)
}

proof fn lemma_first_greater(s: Seq<(Seq<char>, Table)>, key: Seq<char>)
    requires
        sorted_by_id(s),
    ensures
        0 <= first_greater(s, key) <= s.len(),
        forall|i: int| 0 <= i < first_greater(s, key) ==> !seq_less(key, #[trigger] s[i].0),
        forall|i: int| first_greater(s, key) <= i < s.len() ==> seq_less(key, #[trigger] s[i].0),
    decreases s.len(),
{
    if s.len() > 0 {
        if seq_less(key, s[0].0) {
            assert forall|i: int| 0 <= i < s.len() implies seq_less(key, #[trigger] s[i].0) by {
                if i > 0 {
                    lemma_seq_less_total(s[0].0, s[i].0);
                    if s[0].0 != s[i].0 {
                        lemma_seq_less_transitive(key, s[0].0, s[i].0);
                    }
                }
            }
        } else {
            let t = s.drop_first();
            assert forall|i: int, j: int| 0 <= i < j < t.len() implies !seq_less(
                #[trigger] t[j].0,
                #[trigger] t[i].0,
            ) by {
                assert(t[i] == s[i + 1] && t[j] == s[j + 1]);
            }
            lemma_first_greater(t, key);
            assert forall|i: int| 0 <= i < first_greater(s, key) implies !seq_less(key, #[trigger] s[i].0) by {
                if i > 0 {
                    assert(s[i] == t[i - 1]);
                }
            }
            assert forall|i: int| first_greater(s, key) <= i < s.len() implies seq_less(key, #[trigger] s[i].0) by {
                assert(s[i] == t[i - 1]);
            }
        }
    }
}

proof fn lemma_insert_by_id(s: Seq<(Seq<char>, Table)>, x: (Seq<char>, Table))
    requires
        sorted_by_id(s),
    ensures
        sorted_by_id(insert_by_id(s, x)),
        insert_by_id(s, x).to_multiset() == s.to_multiset().insert(x),
{
    let k = first_greater(s, x.0);
    lemma_first_greater(s, x.0);
    let r = s.insert(k, x);
    assert forall|i: int, j: int| 0 <= i < j < r.len() implies !seq_less(
        #[trigger] r[j].0,
        #[trigger] r[i].0,
    ) by {
        if j < k {
            assert(r[i] == s[i] && r[j] == s[j]);
        } else if j == k {
            assert(r[i] == s[i]);
        } else if i == k {
            assert(r[j] == s[j - 1]);
            lemma_seq_less_total(x.0, s[j - 1].0);
        } else if i < k {
            assert(r[i] == s[i] && r[j] == s[j - 1]);
        } else {
            assert(r[i] == s[i - 1] && r[j] == s[j - 1]);
        }
    }
    vstd::seq_lib::to_multiset_insert(s, k, x);
}

/// What a search asks for: by name, else by tag, else by namespace.
pub open spec fn asked_filter(name: Option<&str>, tag: Option<&str>, namespace: Option<&str>) -> Option<
    spec_fn((Seq<char>, Table)) -> bool,
> {
    match name {
        Some(q) => Some(name_matches(q@)),
        None => match tag {
            Some(q) => Some(tag_matches(q@)),
            None => match namespace {
                Some(q) => Some(namespace_matches(q@)),
                None => None,
            },
        },
    }
}

/// The hits of the search asked for: by name when a name is given, else
/// by tag, else by namespace; `None` when none of them is given.
pub fn search<'a>(registry: &'a Registry, name: Option<&str>, tag: Option<&str>, namespace: Option<&str>) -> (r:
    Option<Vec<(&'a str, &'a Table)>>)
    ensures
        match asked_filter(name, tag, namespace) {
            Some(p) => r matches Some(v) && result_view(v@) == sort_by_id(keep(registry@, p)),
            None => r is None,
        },
{
    match name {
        Some(q) => Some(search_by_name(registry, q)),
        None => match tag {
            Some(q) => Some(search_by_tag(registry, q)),
            None => match namespace {
                Some(q) => Some(search_by_namespace(registry, q)),
                None => None,
            },
        },
    }
}

/// Sorting by id gives the same elements, each as often, ordered by id.
pub proof fn lemma_sort_by_id(s: Seq<(Seq<char>, Table)>)
    ensures
        sorted_by_id(sort_by_id(s)),
        sort_by_id(s).to_multiset() == s.to_multiset(),
    decreases s.len(),
{
    if s.len() > 0 {
        lemma_sort_by_id(s.drop_last());
        lemma_insert_by_id(sort_by_id(s.drop_last()), s.last());
        vstd::seq_lib::to_multiset_build(s.drop_last(), s.last());
        assert(s.drop_last().push(s.last()) =~= s);
    }
}

/// An element is kept exactly when it is in `s` and satisfies `p`.
pub proof fn lemma_keep(s: Seq<(Seq<char>, Table)>, p: spec_fn((Seq<char>, Table)) -> bool, x: (Seq<char>, Table))
    ensures
        keep(s, p).contains(x) <==> s.contains(x) && p(x),
    decreases s.len(),
{
    if s.len() > 0 {
        lemma_keep(s.drop_last(), p, x);
        if s.contains(x) && x != s.last() {
            let i = choose|i: int| 0 <= i < s.len() && s[i] == x;
            assert(s.drop_last()[i] == x);
        }
        if s.drop_last().contains(x) {
            let i = choose|i: int| 0 <= i < s.drop_last().len() && s.drop_last()[i] == x;
            assert(s[i] == x);
        }
        if p(s.last()) {
            let k = keep(s.drop_last(), p);
            if k.push(s.last()).contains(x) && x != s.last() {
                let i = choose|i: int| 0 <= i < k.push(s.last()).len() && k.push(s.last())[i] == x;
                assert(k[i] == x);
            }
            if k.contains(x) {
                let i = choose|i: int| 0 <= i < k.len() && k[i] == x;
                assert(k.push(s.last())[i] == x);
            }
            assert(k.push(s.last())[k.len() as int] == s.last());
        }
        assert(s[s.len() - 1] == s.last());
    }
}

/// Every search returns the registry's matching tables and nothing else,
/// as many as match, in non-decreasing id order.
pub proof fn lemma_search_results(
    reg: Seq<(Seq<char>, Table)>,
    p: spec_fn((Seq<char>, Table)) -> bool,
    x: (Seq<char>, Table),
)
    ensures
        sorted_by_id(sort_by_id(keep(reg, p))),
        sort_by_id(keep(reg, p)).contains(x) <==> reg.contains(x) && p(x),
        sort_by_id(keep(reg, p)).len() == keep(reg, p).len(),
{
    lemma_sort_by_id(keep(reg, p));
    lemma_keep(reg, p, x);
    let a = sort_by_id(keep(reg, p));
    let b = keep(reg, p);
    vstd::seq_lib::to_multiset_contains(a, x);
    vstd::seq_lib::to_multiset_contains(b, x);
    vstd::seq_lib::to_multiset_len(a);
    vstd::seq_lib::to_multiset_len(b);
}

/// Ids strictly ascending: each id at most once.
pub open spec fn strictly_sorted_by_id(s: Seq<(Seq<char>, Table)>) -> bool {
    forall|i: int, j: int| 0 <= i < j < s.len() ==> seq_less(#[trigger] s[i].0, #[trigger] s[j].0)
}

proof fn lemma_keep_distinct(s: Seq<(Seq<char>, Table)>, p: spec_fn((Seq<char>, Table)) -> bool)
    requires
        keys_distinct(s),
    ensures
        keys_distinct(keep(s, p)),
    decreases s.len(),
{
    if s.len() > 0 {
        let init = s.drop_last();
        assert(keys_distinct(init)) by {
            assert forall|i: int, j: int|
                0 <= i < init.len() && 0 <= j < init.len() && i != j implies init[i].0 != init[j].0 by {
                assert(init[i] == s[i] && init[j] == s[j]);
            }
        }
        lemma_keep_distinct(init, p);
        let k = keep(init, p);
        if p(s.last()) {
            assert forall|i: int| 0 <= i < k.len() implies k[i].0 != s.last().0 by {
                lemma_keep(init, p, k[i]);
                assert(k.contains(k[i]));
                let j = choose|j: int| 0 <= j < init.len() && init[j] == k[i];
                assert(s[j] == init[j]);
            }
            let kk = k.push(s.last());
            assert forall|i: int, j: int|
                0 <= i < kk.len() && 0 <= j < kk.len() && i != j implies kk[i].0 != kk[j].0 by {
                if i < k.len() && j < k.len() {
                } else if i < k.len() {
                    assert(kk[j] == s.last());
                    assert(kk[i] == k[i]);
                } else {
                    assert(kk[i] == s.last());
                    assert(kk[j] == k[j]);
                }
            }
        }
    }
}

proof fn lemma_insert_strict(s: Seq<(Seq<char>, Table)>, x: (Seq<char>, Table))
    requires
        strictly_sorted_by_id(s),
        forall|i: int| 0 <= i < s.len() ==> #[trigger] s[i].0 != x.0,
    ensures
        strictly_sorted_by_id(insert_by_id(s, x)),
{
    assert(sorted_by_id(s)) by {
        assert forall|i: int, j: int| 0 <= i < j < s.len() implies !seq_less(#[trigger] s[j].0, #[trigger] s[i].0) by {
            lemma_seq_less_total(s[i].0, s[j].0);
        }
    }
    lemma_first_greater(s, x.0);
    let f = first_greater(s, x.0);
    let t = insert_by_id(s, x);
    assert forall|i: int, j: int| 0 <= i < j < t.len() implies seq_less(#[trigger] t[i].0, #[trigger] t[j].0) by {
        if j < f {
            assert(t[i] == s[i] && t[j] == s[j]);
        } else if j == f {
            assert(t[i] == s[i] && t[j] == x);
            lemma_seq_less_total(s[i].0, x.0);
        } else if i < f {
            assert(t[i] == s[i] && t[j] == s[j - 1]);
        } else if i == f {
            assert(t[i] == x && t[j] == s[j - 1]);
        } else {
            assert(t[i] == s[i - 1] && t[j] == s[j - 1]);
        }
    }
}

proof fn lemma_sort_strict(s: Seq<(Seq<char>, Table)>)
    requires
        keys_distinct(s),
    ensures
        strictly_sorted_by_id(sort_by_id(s)),
    decreases s.len(),
{
    if s.len() > 0 {
        let init = s.drop_last();
        assert(keys_distinct(init)) by {
            assert forall|i: int, j: int|
                0 <= i < init.len() && 0 <= j < init.len() && i != j implies init[i].0 != init[j].0 by {
                assert(init[i] == s[i] && init[j] == s[j]);
            }
        }
        lemma_sort_strict(init);
        lemma_sort_by_id(init);
        let sorted = sort_by_id(init);
        assert forall|i: int| 0 <= i < sorted.len() implies #[trigger] sorted[i].0 != s.last().0 by {
            let e = sorted[i];
            vstd::seq_lib::to_multiset_contains(sorted, e);
            vstd::seq_lib::to_multiset_contains(init, e);
            assert(sorted.contains(e));
            let k = choose|k: int| 0 <= k < init.len() && init[k] == e;
            assert(s[k] == e);
        }
        lemma_insert_strict(sorted, s.last());
    }
}

/// Every search returns each matching table once: in a registry whose ids
/// are distinct, the ids of the results strictly ascend.
pub proof fn lemma_search_results_once(reg: Seq<(Seq<char>, Table)>, p: spec_fn((Seq<char>, Table)) -> bool)
    requires
        keys_distinct(reg),
    ensures
        strictly_sorted_by_id(sort_by_id(keep(reg, p))),
{
    lemma_keep_distinct(reg, p);
    lemma_sort_strict(keep(reg, p));
}

} // verus!
