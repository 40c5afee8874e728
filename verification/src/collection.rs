//! Which files of a collection hold tables.
//!
//! A manifest maps directories (and single files) to namespaces. Within a
//! directory, a file holds a table when its name ends in `.yaml` or
//! `.yml` and it is not itself a manifest; the table's id is the file's
//! stem. Reading directories and files happens outside the library; the
//! decisions on names, and the selection of a collection held in memory
//! as a list of paths, are made here.

use vstd::prelude::*;
use crate::text::{chars_end_with, chars_of, is_suffix_of, push_str, str_equal, string_from_range};
use crate::display::{joined, push_joined_strings, string_views};
use crate::validator::last_dot;

verus! {

broadcast use vstd::string::group_string_axioms;

/// `s` without its trailing slashes.
pub open spec fn trim_slashes(s: Seq<char>) -> Seq<char>
    decreases s.len(),
{
    if s.len() > 0 && s.last() == '/' {
        trim_slashes(s.drop_last())
    } else {
        s
    }
}

/// A directory path as collection paths spell it: without trailing
/// slashes, and empty for the collection root `.`.
pub open spec fn normalized_dir(path: Seq<char>) -> Seq<char> {
    let t = trim_slashes(path);
    if t == seq!['.'] {
        Seq::empty()
    } else {
        t
    }
}

/// Index of the last slash of `s`, if any.
pub open spec fn last_slash(s: Seq<char>) -> Option<int>
    decreases s.len(),
{
    if s.len() == 0 {
        None
    } else if s.last() == '/' {
        Some(s.len() - 1)
    } else {
        last_slash(s.drop_last())
    }
}

/// The directory part of a path (before its last slash, empty when it
/// has none).
pub open spec fn parent_of(path: Seq<char>) -> Seq<char> {
    match last_slash(path) {
        Some(i) => path.take(i),
        None => Seq::empty(),
    }
}

/// The file name part of a path (after its last slash).
pub open spec fn name_of(path: Seq<char>) -> Seq<char> {
    match last_slash(path) {
        Some(i) => path.skip(i + 1),
        None => path,
    }
}

/// The name ends in `.yaml` or `.yml`.
pub open spec fn yaml_name(name: Seq<char>) -> bool {
    is_suffix_of(seq!['.', 'y', 'a', 'm', 'l'], name) || is_suffix_of(seq!['.', 'y', 'm', 'l'], name)
}

/// The name is `manifest.yaml` or ends in `.manifest.yaml`.
pub open spec fn manifest_name(name: Seq<char>) -> bool {
    name == "manifest.yaml"@ || is_suffix_of(".manifest.yaml"@, name)
}

/// A file name without its last extension.
pub open spec fn stem_of(name: Seq<char>) -> Seq<char> {
    match last_dot(name) {
        Some(i) => name.take(i),
        None => name,
    }
}

fn trim_len(v: &Vec<char>) -> (n: usize)
    ensures
        n <= v@.len(),
        v@.take(n as int) == trim_slashes(v@),
{
    let mut n: usize = v.len();
    assert(v@.take(n as int) =~= v@);
    while n > 0 && v[n - 1] == '/'
        invariant
            n <= v@.len(),
            trim_slashes(v@.take(n as int)) == trim_slashes(v@),
        decreases n,
    {
        assert(v@.take(n as int).drop_last() =~= v@.take(n - 1));
        n = n - 1;
    }
    n
}

/// `"core/"` becomes `"core"` and `"."` becomes `""`, so that paths in a
/// collection compare with the manifest's directory entries verbatim.
pub fn normalize_dir(path: &str) -> (r: String)
    ensures
        r@ == normalized_dir(path@),
{
    let v = chars_of(path);
    let n = trim_len(&v);
    if n == 1 && v[0] == '.' {
        assert(v@.take(1) =~= seq!['.']);
        return String::new();
    }
    let r = string_from_range(v.as_slice(), 0, n);
    assert(r@ =~= v@.take(n as int));
    proof {
        if trim_slashes(path@) == seq!['.'] {
            assert(v@.take(n as int).len() == 1);
            assert(v@.take(n as int)[0] == v@[0]);
        }
    }
    r
}

fn last_slash_index(v: &Vec<char>) -> (r: Option<usize>)
    ensures
        r matches Some(i) ==> (last_slash(v@) == Some(i as int) && i < v@.len()),
        r is None ==> last_slash(v@) is None,
{
    let mut i: usize = v.len();
    assert(v@.take(i as int) =~= v@);
    while i > 0
        invariant
            i <= v@.len(),
            last_slash(v@) == last_slash(v@.take(i as int)),
        decreases i,
    {
        let ghost t = v@.take(i as int);
        assert(t.drop_last() =~= v@.take(i - 1));
        if v[i - 1] == '/' {
            return Some(i - 1);
        }
        i = i - 1;
    }
    None
}

/// Split a path at its last slash: `"core/oracle.yaml"` gives `("core",
/// "oracle.yaml")`, `"oracle.yaml"` gives `("", "oracle.yaml")`.
pub fn split_parent(path: &str) -> (r: (String, String))
    ensures
        r.0@ == parent_of(path@),
        r.1@ == name_of(path@),
{
    let v = chars_of(path);
    match last_slash_index(&v) {
        Some(i) => {
            let n = v.len();
            let parent = string_from_range(v.as_slice(), 0, i);
            let name = string_from_range(v.as_slice(), i + 1, n);
            assert(parent@ =~= path@.take(i as int));
            assert(name@ =~= path@.skip(i + 1));
            (parent, name)
        },
        None => (String::new(), path.to_owned()),
    }
}

/// The name ends in `.yaml` or `.yml`.
pub fn is_yaml_name(name: &str) -> (r: bool)
    ensures
        r == yaml_name(name@),
{
    let v = chars_of(name);
    let long = vec!['.', 'y', 'a', 'm', 'l'];
    let short = vec!['.', 'y', 'm', 'l'];
    assert(long@ =~= seq!['.', 'y', 'a', 'm', 'l']);
    assert(short@ =~= seq!['.', 'y', 'm', 'l']);
    chars_end_with(v.as_slice(), long.as_slice()) || chars_end_with(v.as_slice(), short.as_slice())
}

/// The name is `manifest.yaml` or ends in `.manifest.yaml`.
pub fn is_manifest_name(name: &str) -> (r: bool)
    ensures
        r == manifest_name(name@),
{
    if str_equal(name, "manifest.yaml") {
        return true;
    }
    let v = chars_of(name);
    let suffix = chars_of(".manifest.yaml");
    chars_end_with(v.as_slice(), suffix.as_slice())
}

/// A file name without its last extension (`"a.b.yaml"` gives `"a.b"`).
pub fn name_stem(name: &str) -> (r: String)
    ensures
        r@ == stem_of(name@),
{
    let v = chars_of(name);
    let mut i: usize = v.len();
    assert(v@.take(i as int) =~= v@);
    while i > 0
        invariant
            i <= v@.len(),
            v@ == name@,
            last_dot(v@) == last_dot(v@.take(i as int)),
        decreases i,
    {
        let ghost t = v@.take(i as int);
        assert(t.drop_last() =~= v@.take(i - 1));
        if v[i - 1] == '.' {
            let r = string_from_range(v.as_slice(), 0, i - 1);
            assert(r@ =~= name@.take(i - 1));
            return r;
        }
        i = i - 1;
    }
    name.to_owned()
}

/// What a file found in a collection directory is.
#[derive(Debug, PartialEq)]
pub enum FileKind {
    /// A table file, with its stem (the table's id).
    Table(String),
    /// A manifest, which holds no table.
    Manifest,
    /// Any other file.
    Other,
}

/// Index of the dot that starts a file name's extension: its last dot,
/// unless that dot opens the name (a hidden file has no extension).
pub open spec fn extension_dot(name: Seq<char>) -> Option<int> {
    match last_dot(name) {
        Some(i) => if i > 0 {
            Some(i)
        } else {
            None
        },
        None => None,
    }
}

/// What the file called `name` is: a table file when its extension is
/// `yaml` or `yml` and it is not a manifest; its stem is the name before
/// the extension.
pub open spec fn kind_of(name: Seq<char>) -> Option<Option<Seq<char>>> {
    match extension_dot(name) {
        Some(i) => {
            let ext = name.skip(i + 1);
            if ext == "yaml"@ || ext == "yml"@ {
                if manifest_name(name) {
                    Some(None)
                } else {
                    Some(Some(name.take(i)))
                }
            } else {
                None
            }
        },
        None => None,
    }
}

/// Classify the file called `name` (a file name, not a path).
pub fn classify_file_name(name: &str) -> (r: FileKind)
    ensures
        match kind_of(name@) {
            None => r is Other,
            Some(None) => r is Manifest,
            Some(Some(stem)) => r matches FileKind::Table(s) && s@ == stem,
        },
{
    let v = chars_of(name);
    let mut i: usize = v.len();
    assert(v@.take(i as int) =~= v@);
    while i > 0 && v[i - 1] != '.'
        invariant
            i <= v@.len(),
            v@ == name@,
            last_dot(v@) == last_dot(v@.take(i as int)),
        decreases i,
    {
        let ghost t = v@.take(i as int);
        assert(t.drop_last() =~= v@.take(i - 1));
        i = i - 1;
    }
    proof {
        if i > 0 {
            assert(v@.take(i as int).last() == v@[i - 1]);
        } else {
            assert(v@.take(0) =~= Seq::<char>::empty());
        }
    }
    if i <= 1 {
        proof {
            if i == 1 {
                assert(v@.take(1).last() == v@[0]);
            }
        }
        return FileKind::Other;
    }
    let d = i - 1;
    assert(last_dot(v@) == Some(d as int));
    let ext = string_from_range(v.as_slice(), i, v.len());
    assert(ext@ =~= name@.skip(d + 1));
    if !(str_equal(ext.as_str(), "yaml") || str_equal(ext.as_str(), "yml")) {
        return FileKind::Other;
    }
    if is_manifest_name(name) {
        return FileKind::Manifest;
    }
    let stem = string_from_range(v.as_slice(), 0, d);
    assert(stem@ =~= name@.take(d as int));
    FileKind::Table(stem)
}

/// A table file picked from a collection held in memory: the index of
/// its path, the index of the manifest directory it lies in, its stem.
#[derive(Debug, PartialEq)]
pub struct Picked {
    pub file: usize,
    pub dir: usize,
    pub stem: String,
}

/// The file at `path` is a YAML file directly inside directory `dir`.
pub open spec fn in_dir(dir: Seq<char>, path: Seq<char>) -> bool {
    parent_of(path) == normalized_dir(dir) && yaml_name(name_of(path))
}

/// The table files of directory `d` among the first `n` paths.
pub open spec fn picks_in(dirs: Seq<Seq<char>>, paths: Seq<Seq<char>>, d: int, n: nat) -> Seq<
    (int, int, Seq<char>),
>
    decreases n,
{
    if n == 0 {
        Seq::empty()
    } else {
        let prev = picks_in(dirs, paths, d, (n - 1) as nat);
        let p = paths[n - 1];
        if in_dir(dirs[d], p) && !manifest_name(name_of(p)) {
            prev.push((n - 1, d, stem_of(name_of(p))))
        } else {
            prev
        }
    }
}

/// The table files of the first `m` directories, directory by directory,
/// each in path order.
pub open spec fn picks(dirs: Seq<Seq<char>>, paths: Seq<Seq<char>>, m: nat) -> Seq<
    (int, int, Seq<char>),
>
    decreases m,
{
    if m == 0 {
        Seq::empty()
    } else {
        picks(dirs, paths, (m - 1) as nat) + picks_in(dirs, paths, m - 1, paths.len())
    }
}

/// Some directory claims the file at `path`.
pub open spec fn claimed(dirs: Seq<Seq<char>>, path: Seq<char>) -> bool {
    exists|d: int| 0 <= d < dirs.len() && #[trigger] in_dir(dirs[d], path)
}

/// The YAML files among the first `n` paths that no directory claims.
pub open spec fn unclaimed(dirs: Seq<Seq<char>>, paths: Seq<Seq<char>>, n: nat) -> Seq<int>
    decreases n,
{
    if n == 0 {
        Seq::empty()
    } else {
        let prev = unclaimed(dirs, paths, (n - 1) as nat);
        if !claimed(dirs, paths[n - 1]) && yaml_name(paths[n - 1]) {
            prev.push(n - 1)
        } else {
            prev
        }
    }
}

proof fn picks_in_at(dirs: Seq<Seq<char>>, paths: Seq<Seq<char>>, d: int, n: nat, j: int) -> (k: int)
    requires
        0 <= j < n <= paths.len(),
        in_dir(dirs[d], paths[j]),
        !manifest_name(name_of(paths[j])),
    ensures
        0 <= k < picks_in(dirs, paths, d, n).len(),
        picks_in(dirs, paths, d, n)[k] == (j, d, stem_of(name_of(paths[j]))),
    decreases n,
{
    if j == n - 1 {
        picks_in(dirs, paths, d, (n - 1) as nat).len() as int
    } else {
        let k = picks_in_at(dirs, paths, d, (n - 1) as nat, j);
        k
    }
}

proof fn picks_in_source(dirs: Seq<Seq<char>>, paths: Seq<Seq<char>>, d: int, n: nat, k: int)
    requires
        n <= paths.len(),
        0 <= k < picks_in(dirs, paths, d, n).len(),
    ensures
        ({
            let (j, dd, stem) = picks_in(dirs, paths, d, n)[k];
            &&& dd == d
            &&& 0 <= j < n
            &&& in_dir(dirs[d], paths[j])
            &&& !manifest_name(name_of(paths[j]))
            &&& stem == stem_of(name_of(paths[j]))
        }),
    decreases n,
{
    let prev = picks_in(dirs, paths, d, (n - 1) as nat);
    if k < prev.len() {
        picks_in_source(dirs, paths, d, (n - 1) as nat, k);
    }
}

proof fn picks_at(dirs: Seq<Seq<char>>, paths: Seq<Seq<char>>, m: nat, d: int, k: int) -> (i: int)
    requires
        0 <= d < m,
        0 <= k < picks_in(dirs, paths, d, paths.len()).len(),
    ensures
        0 <= i < picks(dirs, paths, m).len(),
        picks(dirs, paths, m)[i] == picks_in(dirs, paths, d, paths.len())[k],
    decreases m,
{
    let prev = picks(dirs, paths, (m - 1) as nat);
    if d == m - 1 {
        prev.len() + k
    } else {
        let i = picks_at(dirs, paths, (m - 1) as nat, d, k);
        i
    }
}

proof fn picks_source(dirs: Seq<Seq<char>>, paths: Seq<Seq<char>>, m: nat, i: int) -> (dk: (int, int))
    requires
        0 <= i < picks(dirs, paths, m).len(),
    ensures
        0 <= dk.0 < m,
        0 <= dk.1 < picks_in(dirs, paths, dk.0, paths.len()).len(),
        picks(dirs, paths, m)[i] == picks_in(dirs, paths, dk.0, paths.len())[dk.1],
    decreases m,
{
    let prev = picks(dirs, paths, (m - 1) as nat);
    if i < prev.len() {
        picks_source(dirs, paths, (m - 1) as nat, i)
    } else {
        (m - 1, i - prev.len())
    }
}

/// A law of picking table files: every YAML file directly inside one of
/// the directories, other than a manifest, is picked for that directory
/// with its file stem; and every pick is such a file.
pub proof fn lemma_picks_exact(dirs: Seq<Seq<char>>, paths: Seq<Seq<char>>, d: int, j: int, i: int)
    ensures
        0 <= d < dirs.len() && 0 <= j < paths.len() && in_dir(dirs[d], paths[j]) && !manifest_name(
            name_of(paths[j]),
        ) ==> picks(dirs, paths, dirs.len()).contains((j, d, stem_of(name_of(paths[j])))),
        0 <= i < picks(dirs, paths, dirs.len()).len() ==> {
            let (jj, dd, stem) = picks(dirs, paths, dirs.len())[i];
            &&& 0 <= dd < dirs.len()
            &&& 0 <= jj < paths.len()
            &&& in_dir(dirs[dd], paths[jj])
            &&& !manifest_name(name_of(paths[jj]))
            &&& stem == stem_of(name_of(paths[jj]))
        },
{
    if 0 <= d < dirs.len() && 0 <= j < paths.len() && in_dir(dirs[d], paths[j]) && !manifest_name(name_of(paths[j])) {
        let k = picks_in_at(dirs, paths, d, paths.len(), j);
        let x = picks_at(dirs, paths, dirs.len(), d, k);
        assert(picks(dirs, paths, dirs.len())[x] == (j, d, stem_of(name_of(paths[j]))));
    }
    if 0 <= i < picks(dirs, paths, dirs.len()).len() {
        let dk = picks_source(dirs, paths, dirs.len(), i);
        picks_in_source(dirs, paths, dk.0, paths.len(), dk.1);
    }
}

proof fn lemma_unclaimed_members(dirs: Seq<Seq<char>>, paths: Seq<Seq<char>>, n: nat, j: int)
    requires
        n <= paths.len(),
    ensures
        unclaimed(dirs, paths, n).contains(j) <==> 0 <= j < n && yaml_name(paths[j]) && !claimed(dirs, paths[j]),
    decreases n,
{
    if n > 0 {
        lemma_unclaimed_members(dirs, paths, (n - 1) as nat, j);
        let prev = unclaimed(dirs, paths, (n - 1) as nat);
        if prev.contains(j) {
            let x = choose|x: int| 0 <= x < prev.len() && prev[x] == j;
            assert(unclaimed(dirs, paths, n)[x] == j);
        }
        if unclaimed(dirs, paths, n).contains(j) && !prev.contains(j) {
            let x = choose|x: int| 0 <= x < unclaimed(dirs, paths, n).len() && unclaimed(dirs, paths, n)[x] == j;
            if x < prev.len() {
                assert(prev[x] == j);
            }
        }
        if j == n - 1 && yaml_name(paths[j]) && !claimed(dirs, paths[j]) {
            assert(unclaimed(dirs, paths, n)[prev.len() as int] == j);
        }
    }
}

/// A law of picking table files: the files reported as unclaimed are
/// exactly the YAML files that lie directly inside none of the
/// directories.
pub proof fn lemma_unclaimed_exact(dirs: Seq<Seq<char>>, paths: Seq<Seq<char>>, j: int)
    ensures
        unclaimed(dirs, paths, paths.len()).contains(j) <==> 0 <= j < paths.len() && yaml_name(paths[j]) && forall|d: int|
            0 <= d < dirs.len() ==> !#[trigger] in_dir(dirs[d], paths[j]),
{
    lemma_unclaimed_members(dirs, paths, paths.len(), j);
}

pub open spec fn strs(v: Seq<String>) -> Seq<Seq<char>> {
    v.map_values(|s: String| s@)
}

pub open spec fn picked_view(v: Seq<Picked>) -> Seq<(int, int, Seq<char>)> {
    v.map_values(|p: Picked| (p.file as int, p.dir as int, p.stem@))
}

/// Pick the table files of a collection held in memory: `dirs` are the
/// manifest's directory paths, `paths` the paths of all its files. The
/// picks come directory by directory, each in path order (a file is in a
/// directory when its parent is the directory and it is a YAML file; a
/// manifest is passed over); with them, the indices of the YAML files
/// that no directory claims.
pub fn pick_table_files(dirs: &Vec<String>, paths: &Vec<String>) -> (r: (Vec<Picked>, Vec<usize>))
    ensures
        picked_view(r.0@) == picks(strs(dirs@), strs(paths@), dirs@.len() as nat),
        r.1@.map_values(|i: usize| i as int) == unclaimed(strs(dirs@), paths@.map_values(|s: String| s@), paths@.len() as nat),
{
    let ghost ds = strs(dirs@);
    let ghost ps = strs(paths@);
    let mut out: Vec<Picked> = Vec::new();
    let mut matched: Vec<bool> = Vec::new();
    let mut k: usize = 0;
    while k < paths.len()
        invariant
            k <= paths@.len(),
            matched@.len() == k,
            forall|j: int| 0 <= j < k ==> !#[trigger] matched@[j],
        decreases paths@.len() - k,
    {
        matched.push(false);
        k = k + 1;
    }
    let mut d: usize = 0;
    assert(picked_view(out@) =~= picks(ds, ps, 0));
    while d < dirs.len()
        invariant
            d <= dirs@.len(),
            ds == strs(dirs@),
            ps == strs(paths@),
            matched@.len() == paths@.len(),
            picked_view(out@) == picks(ds, ps, d as nat),
            forall|j: int|
                0 <= j < paths@.len() ==> (#[trigger] matched@[j] <==> exists|e: int|
                    0 <= e < d && #[trigger] in_dir(ds[e], ps[j])),
        decreases dirs@.len() - d,
    {
        let dir_norm = normalize_dir(dirs[d].as_str());
        let ghost base = picked_view(out@);
        let mut i: usize = 0;
        assert(base + picks_in(ds, ps, d as int, 0) =~= base);
        while i < paths.len()
            invariant
                d < dirs@.len(),
                i <= paths@.len(),
                ds == strs(dirs@),
                ps == strs(paths@),
                dir_norm@ == normalized_dir(ds[d as int]),
                matched@.len() == paths@.len(),
                base == picks(ds, ps, d as nat),
                picked_view(out@) == base + picks_in(ds, ps, d as int, i as nat),
                forall|j: int|
                    0 <= j < paths@.len() ==> (#[trigger] matched@[j] <==> (exists|e: int|
                        0 <= e < d && #[trigger] in_dir(ds[e], ps[j])) || (j < i && in_dir(
                        ds[d as int],
                        ps[j],
                    ))),
            decreases paths@.len() - i,
        {
            let (parent, name) = split_parent(paths[i].as_str());
            let inside = str_equal(parent.as_str(), dir_norm.as_str()) && is_yaml_name(name.as_str());
            assert(ps[i as int] == paths@[i as int]@);
            assert(inside == in_dir(ds[d as int], ps[i as int]));
            let ghost before = out@;
            if inside {
                matched.set(i, true);
                if !is_manifest_name(name.as_str()) {
                    let stem = name_stem(name.as_str());
                    out.push(Picked { file: i, dir: d, stem });
                    assert(picked_view(out@) =~= picked_view(before).push(
                        (i as int, d as int, stem_of(name_of(ps[i as int]))),
                    ));
                }
            }
            proof {
                assert forall|j: int| 0 <= j < paths@.len() implies (#[trigger] matched@[j] <==> (exists|e: int|
                    0 <= e < d && #[trigger] in_dir(ds[e], ps[j])) || (j < i + 1 && in_dir(
                    ds[d as int],
                    ps[j],
                ))) by {
                }
            }
            i = i + 1;
        }
        proof {
            assert(picks(ds, ps, (d + 1) as nat) == picks(ds, ps, d as nat) + picks_in(ds, ps, d as int, paths@.len() as nat));
            assert forall|j: int| 0 <= j < paths@.len() implies (#[trigger] matched@[j] <==> exists|e: int|
                0 <= e < d + 1 && #[trigger] in_dir(ds[e], ps[j])) by {
                if matched@[j] {
                    if !(exists|e: int| 0 <= e < d && #[trigger] in_dir(ds[e], ps[j])) {
                        assert(in_dir(ds[d as int], ps[j]));
                    }
                }
            }
        }
        d = d + 1;
    }
    let mut ignored: Vec<usize> = Vec::new();
    let mut i: usize = 0;
    assert(ignored@.map_values(|x: usize| x as int) =~= unclaimed(ds, ps, 0));
    while i < paths.len()
        invariant
            i <= paths@.len(),
            ds == strs(dirs@),
            ps == strs(paths@),
            matched@.len() == paths@.len(),
            forall|j: int|
                0 <= j < paths@.len() ==> (#[trigger] matched@[j] <==> claimed(ds, ps[j])),
            ignored@.map_values(|x: usize| x as int) == unclaimed(ds, ps, i as nat),
        decreases paths@.len() - i,
    {
        let ghost before = ignored@;
        assert(ps[i as int] == paths@[i as int]@);
        if !matched[i] && is_yaml_name(paths[i].as_str()) {
            ignored.push(i);
            assert(ignored@.map_values(|x: usize| x as int) =~= before.map_values(|x: usize| x as int).push(i as int));
        }
        i = i + 1;
    }
    assert(ps =~= paths@.map_values(|s: String| s@));
    (out, ignored)
}

/// The problem with picked table file `path` whose stem is `stem` and
/// whose table has id `id` (or could not be read, and why), if any.
pub open spec fn import_problem(path: Seq<char>, stem: Seq<char>, id: Result<Seq<char>, Seq<char>>) -> Option<
    Seq<char>,
> {
    match id {
        Ok(i) => if i == stem {
            None
        } else {
            Some(path + ": table id '"@ + i + "' does not match filename '"@ + stem + "'"@)
        },
        Err(e) => Some(path + ": "@ + e),
    }
}

/// The problems with the first `n` picks, in order.
pub open spec fn import_problems(
    paths: Seq<Seq<char>>,
    picks: Seq<(int, int, Seq<char>)>,
    ids: Seq<Result<Seq<char>, Seq<char>>>,
    n: nat,
) -> Seq<Seq<char>>
    decreases n,
{
    if n == 0 {
        Seq::empty()
    } else {
        let k = n - 1;
        import_problems(paths, picks, ids, (n - 1) as nat) + match import_problem(paths[picks[k].0], picks[k].2, ids[k]) {
            Some(p) => seq![p],
            None => Seq::empty(),
        }
    }
}

pub open spec fn results_view(v: Seq<Result<String, String>>) -> Seq<Result<Seq<char>, Seq<char>>> {
    v.map_values(
        |r: Result<String, String>|
            match r {
                Ok(s) => Ok(s@),
                Err(e) => Err(e@),
            },
    )
}

/// Check picked table files for import: `ids[k]` is the id of the table
/// in pick `k` (or why it could not be read). Each pick whose id is not
/// its stem, or that could not be read, gives a problem naming its path.
pub fn import_errors(paths: &Vec<String>, picks: &Vec<Picked>, ids: &Vec<Result<String, String>>) -> (r: Vec<String>)
    requires
        ids@.len() == picks@.len(),
        forall|k: int| 0 <= k < picks@.len() ==> #[trigger] picks@[k].file < paths@.len(),
    ensures
        strs(r@) == import_problems(strs(paths@), picked_view(picks@), results_view(ids@), picks@.len() as nat),
{
    let mut out: Vec<String> = Vec::new();
    let mut k: usize = 0;
    while k < picks.len()
        invariant
            k <= picks@.len(),
            ids@.len() == picks@.len(),
            forall|j: int| 0 <= j < picks@.len() ==> #[trigger] picks@[j].file < paths@.len(),
            strs(out@) == import_problems(strs(paths@), picked_view(picks@), results_view(ids@), k as nat),
        decreases picks@.len() - k,
    {
        let p = &picks[k];
        let path = paths[p.file].as_str();
        let ghost before = strs(out@);
        assert(strs(paths@)[p.file as int] == path@);
        assert(picked_view(picks@)[k as int] == (p.file as int, p.dir as int, p.stem@));
        match &ids[k] {
            Ok(id) => {
                if !str_equal(id.as_str(), p.stem.as_str()) {
                    let mut m = String::new();
                    push_str(&mut m, path);
                    push_str(&mut m, ": table id '");
                    push_str(&mut m, id.as_str());
                    push_str(&mut m, "' does not match filename '");
                    push_str(&mut m, p.stem.as_str());
                    push_str(&mut m, "'");
                    out.push(m);
                    assert(strs(out@) =~= before.push(m@));
                }
            },
            Err(e) => {
                let mut m = String::new();
                push_str(&mut m, path);
                push_str(&mut m, ": ");
                push_str(&mut m, e.as_str());
                out.push(m);
                assert(strs(out@) =~= before.push(m@));
            },
        }
        assert(strs(out@) =~= import_problems(strs(paths@), picked_view(picks@), results_view(ids@), (k + 1) as nat));
        k = k + 1;
    }
    out
}

/// Why no collection could be found in a directory without manifests.
pub open spec fn no_collection_text() -> Seq<char> {
    "No collection found. Provide --collection or run from a collection directory."@
}

/// Why a directory with several manifests names no one collection.
pub open spec fn many_manifests_text(names: Seq<String>) -> Seq<char> {
    "Multiple manifests found: "@ + joined(string_views(names), ", "@)
        + ". Specify one with --collection <path>."@
}

/// The one manifest among the manifests of a directory (given by their
/// file names, in order): its index when there is exactly one, else why
/// none can be chosen.
pub fn choose_manifest(names: &Vec<String>) -> (r: Result<usize, String>)
    ensures
        names@.len() == 0 ==> (r matches Err(m) && m@ == no_collection_text()),
        names@.len() == 1 ==> r == Ok::<usize, String>(0),
        names@.len() > 1 ==> (r matches Err(m) && m@ == many_manifests_text(names@)),
{
    if names.len() == 0 {
        let m = "No collection found. Provide --collection or run from a collection directory.";
        return Err(m.to_string());
    }
    if names.len() == 1 {
        return Ok(0);
    }
    let mut m = String::new();
    push_str(&mut m, "Multiple manifests found: ");
    push_joined_strings(&mut m, names, ", ");
    push_str(&mut m, ". Specify one with --collection <path>.");
    Err(m)
}

proof fn lemma_last_dot_is_last(s: Seq<char>)
    ensures
        last_dot(s) matches Some(i) ==> 0 <= i < s.len() && s[i] == '.' && forall|j: int|
            i < j < s.len() ==> s[j] != '.',
        last_dot(s) is None ==> forall|j: int| 0 <= j < s.len() ==> s[j] != '.',
    decreases s.len(),
{
    if s.len() > 0 && s.last() != '.' {
        lemma_last_dot_is_last(s.drop_last());
        assert forall|j: int| 0 <= j < s.len() - 1 implies s[j] == s.drop_last()[j] by {}
    }
}

/// The editor's import picks the table files of a directory by the same
/// rule as reading the directory from disk: a name is taken as a table
/// exactly when its extension is `yaml` or `yml` and it is no manifest,
/// and under the same stem. The hidden files `.yaml` and `.yml` are the
/// exception: on disk they have no extension and are passed over.
pub proof fn lemma_import_picks_like_disk(name: Seq<char>)
    requires
        name != ".yaml"@,
        name != ".yml"@,
    ensures
        (yaml_name(name) && !manifest_name(name)) <==> kind_of(name) is Some && kind_of(name)->0 is Some,
        yaml_name(name) && !manifest_name(name) ==> kind_of(name) == Some(Some(stem_of(name))),
{
    reveal_strlit("yaml");
    reveal_strlit("yml");
    reveal_strlit(".yaml");
    reveal_strlit(".yml");
    lemma_last_dot_is_last(name);
    let n = name.len();
    if yaml_name(name) {
        let k: int = if is_suffix_of(seq!['.', 'y', 'a', 'm', 'l'], name) {
            5
        } else {
            4
        };
        assert(name[n - k] == '.') by {
            assert(name.skip(n - k)[0] == name[n - k]);
        }
        assert forall|j: int| n - k < j < n implies #[trigger] name[j] != '.' by {
            assert(name.skip(n - k)[j - (n - k)] == name[j]);
        }
        let i = last_dot(name)->0;
        assert(i == n - k);
        if i == 0 {
            assert(name =~= name.skip(0));
            if k == 5 {
                assert(name =~= ".yaml"@);
            } else {
                assert(name =~= ".yml"@);
            }
        }
        assert(extension_dot(name) == Some(i));
        if k == 5 {
            assert(name.skip(i + 1) =~= "yaml"@) by {
                assert forall|j: int| 0 <= j < 4 implies #[trigger] name.skip(i + 1)[j] == name.skip(n - k)[j + 1] by {}
            }
        } else {
            assert(name.skip(i + 1) =~= "yml"@) by {
                assert forall|j: int| 0 <= j < 3 implies #[trigger] name.skip(i + 1)[j] == name.skip(n - k)[j + 1] by {}
            }
        }
    }
    if kind_of(name) is Some && kind_of(name)->0 is Some {
        let i = extension_dot(name)->0;
        assert(last_dot(name) == Some(i));
        let ext = name.skip(i + 1);
        assert(name[i] == '.');
        if ext == "yaml"@ {
            assert(ext.len() == 4);
            assert(name.skip(n - 5) =~= seq!['.', 'y', 'a', 'm', 'l']) by {
                assert(name.skip(n - 5)[0] == name[i]);
                assert forall|j: int| 1 <= j < 5 implies #[trigger] name.skip(n - 5)[j] == ext[j - 1] by {}
            }
        } else {
            assert(ext =~= "yml"@);
            assert(ext.len() == 3);
            assert(name.skip(n - 4) =~= seq!['.', 'y', 'm', 'l']) by {
                assert(name.skip(n - 4)[0] == name[i]);
                assert forall|j: int| 1 <= j < 4 implies #[trigger] name.skip(n - 4)[j] == ext[j - 1] by {}
            }
        }
    }
}

} // verus!
