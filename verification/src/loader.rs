//! Building a registry from the files of a collection.
//!
//! Finding and reading the files, and parsing their YAML, happen outside
//! the library; what is decided about each file here is the loader's own:
//! namespace checks, id checks, table validation and registration, with
//! every problem collected rather than the first one returned.

use vstd::prelude::*;
use crate::dice::DiceFacts;
use crate::error::{Error, LoadError, ValidationError};
use crate::models::Table;
use crate::registry::{has_key, keys_distinct, Registry};
use crate::text::{push_str, str_equal};
use crate::validator::{namespace_problem, table_check_defined, table_outcome, validate_namespace, validate_table};

verus! {

/// A table file of a collection, read and parsed: where it lies, the
/// namespace its directory maps to, its file stem, its table (or the
/// YAML parser's message) and the dice engine's facts on its roll.
#[derive(Debug)]
pub struct LoadedFile {
    pub path: String,
    pub namespace: String,
    pub stem: String,
    pub table: Result<Table, String>,
    pub dice: DiceFacts,
}

/// Something the loader reports about a collection.
pub enum LoadProblem {
    /// A namespace that breaks the naming rule, and why.
    Namespace { namespace: Seq<char>, reason: Seq<char> },
    /// A file whose YAML did not parse, with the parser's message.
    Yaml(Seq<char>),
    /// A table whose id is not its file stem.
    IdMismatch { id: Seq<char>, filename: Seq<char>, path: Seq<char> },
    /// The table of file `k` fails validation.
    Invalid(int),
    /// A fully qualified id that a previous file already took.
    Duplicate(Seq<char>),
}

/// The fully qualified id of a file's table: `namespace.stem`.
pub open spec fn file_fqid(f: LoadedFile) -> Seq<char> {
    f.namespace@ + seq!['.'] + f.stem@
}

/// An earlier file has the same namespace as file `k`.
pub open spec fn namespace_seen(files: Seq<LoadedFile>, k: int) -> bool {
    exists|j: int| 0 <= j < k && #[trigger] files[j].namespace@ == files[k].namespace@
}

/// Validation accepts `table`, given the dice facts on its roll.
pub open spec fn table_accepted(table: Table, facts: DiceFacts) -> bool {
    table_outcome(table, facts, Ok(()))
}

/// The registry and the problems after the first `n` files. A file in an
/// invalid namespace is skipped, its namespace reported once; a file
/// whose YAML failed, whose id is not its stem, whose table fails
/// validation or whose fully qualified id is taken is reported and
/// skipped; every other file's table is registered.
pub open spec fn load_state(files: Seq<LoadedFile>, n: nat) -> (
    Seq<(Seq<char>, Table)>,
    Seq<LoadProblem>,
)
    decreases n,
{
    if n == 0 {
        (Seq::empty(), Seq::empty())
    } else {
        let prev = load_state(files, (n - 1) as nat);
        let k = n - 1;
        let f = files[k];
        match namespace_problem(f.namespace@) {
            Some(why) => if namespace_seen(files, k) {
                prev
            } else {
                (prev.0, prev.1.push(LoadProblem::Namespace { namespace: f.namespace@, reason: why }))
            },
            None => match f.table {
                Err(msg) => (prev.0, prev.1.push(LoadProblem::Yaml(msg@))),
                Ok(t) => if t.spec_id() != f.stem@ {
                    (
                        prev.0,
                        prev.1.push(
                            LoadProblem::IdMismatch {
                                id: t.spec_id(),
                                filename: f.stem@,
                                path: f.path@,
                            },
                        ),
                    )
                } else if !table_accepted(t, f.dice) {
                    (prev.0, prev.1.push(LoadProblem::Invalid(k)))
                } else if has_key(prev.0, file_fqid(f)) {
                    (prev.0, prev.1.push(LoadProblem::Duplicate(file_fqid(f))))
                } else {
                    (prev.0.push((file_fqid(f), t)), prev.1)
                },
            },
        }
    }
}

/// The problem with the manifest's own namespace, if any.
pub open spec fn manifest_problems(namespace: Seq<char>) -> Seq<LoadProblem> {
    match namespace_problem(namespace) {
        Some(why) => seq![LoadProblem::Namespace { namespace, reason: why }],
        None => Seq::empty(),
    }
}

/// `e` is the error that reports problem `p` about `files`.
pub open spec fn reports_problem(e: Error, p: LoadProblem, files: Seq<LoadedFile>) -> bool {
    match p {
        LoadProblem::Namespace { namespace, reason } => e matches Error::Validation(
            ValidationError::InvalidNamespace { namespace: n, reason: r },
        ) && n@ == namespace && r@ == reason,
        LoadProblem::Yaml(msg) => e matches Error::Yaml(m) && m@ == msg,
        LoadProblem::IdMismatch { id, filename, path } => e matches Error::Validation(
            ValidationError::IdFilenameMismatch { id: a, filename: b, path: c },
        ) && a@ == id && b@ == filename && c@ == path,
        LoadProblem::Invalid(k) => e matches Error::Validation(v) && files[k].table matches Ok(t)
            && table_outcome(t, files[k].dice, Err(v)),
        LoadProblem::Duplicate(id) => e matches Error::Validation(ValidationError::DuplicateId { id: x })
            && x@ == id,
    }
}

/// `errs` is `earlier` followed by one error for each of `probs`, in order.
pub open spec fn reports_after(
    errs: Seq<Error>,
    earlier: Seq<Error>,
    probs: Seq<LoadProblem>,
    files: Seq<LoadedFile>,
) -> bool {
    &&& errs.len() == earlier.len() + probs.len()
    &&& errs.take(earlier.len() as int) == earlier
    &&& forall|i: int|
        0 <= i < probs.len() ==> reports_problem(#[trigger] errs[earlier.len() + i], probs[i], files)
}

/// Every parsed table can be validated within machine limits.
pub open spec fn files_checkable(files: Seq<LoadedFile>) -> bool {
    forall|k: int|
        0 <= k < files.len() ==> (#[trigger] files[k].table matches Ok(t) ==> table_check_defined(
            t,
            files[k].dice,
        ))
}

fn contains_namespace(seen: &Vec<String>, ns: &str) -> (r: bool)
    ensures
        r == exists|j: int| 0 <= j < seen@.len() && #[trigger] seen@[j]@ == ns@,
{
    let mut j: usize = 0;
    while j < seen.len()
        invariant
            j <= seen@.len(),
            forall|k: int| 0 <= k < j ==> seen@[k]@ != ns@,
        decreases seen@.len() - j,
    {
        if str_equal(seen[j].as_str(), ns) {
            return true;
        }
        j = j + 1;
    }
    false
}

/// Build a registry from the files of a collection whose manifest
/// declares `manifest_namespace`: the registry of every file that passed,
/// and one error for each problem found, in order (see [`load_state`]).
pub fn build_registry(manifest_namespace: &str, files: Vec<LoadedFile>) -> (r: (Registry, Vec<Error>))
    requires
        files_checkable(files@),
    ensures
        r.0.wf(),
        r.0@ == load_state(files@, files@.len()).0,
        reports_after(
            r.1@,
            Seq::empty(),
            manifest_problems(manifest_namespace@) + load_state(files@, files@.len()).1,
            files@,
        ),
{
    let ghost all_files = files@;
    let ghost earlier = Seq::<Error>::empty();
    let mut errs: Vec<Error> = Vec::new();
    let mut registry = Registry::new();
    match validate_namespace(manifest_namespace) {
        Err(e) => {
            errs.push(Error::Validation(e));
        },
        Ok(()) => {},
    }
    assert(manifest_problems(manifest_namespace@) + load_state(all_files, 0).1 =~= manifest_problems(manifest_namespace@));
    assert(errs@.take(earlier.len() as int) =~= earlier);
    assert(reports_after(errs@, earlier, manifest_problems(manifest_namespace@), all_files)) by {
        if namespace_problem(manifest_namespace@) is Some {
            assert(errs@[earlier.len() as int] == errs@.last());
        }
    }
    let mut seen: Vec<String> = Vec::new();
    for f in it: files.into_iter()
        invariant
            it.seq() == all_files,
            files_checkable(all_files),
            registry.wf(),
            registry@ == load_state(all_files, it.index() as nat).0,
            reports_after(
                errs@,
                earlier,
                manifest_problems(manifest_namespace@) + load_state(all_files, it.index() as nat).1,
                all_files,
            ),
            seen@.len() == it.index(),
            forall|j: int| 0 <= j < it.index() ==> #[trigger] seen@[j]@ == all_files[j].namespace@,
    {
        let ghost i = it.index();
        let ghost before = errs@;
        let ghost mp = manifest_problems(manifest_namespace@);
        let ghost prev = load_state(all_files, i as nat);
        assert(f == all_files[i]);
        let known = contains_namespace(&seen, f.namespace.as_str());
        assert(known == namespace_seen(all_files, i)) by {
            if known {
                let j = choose|j: int| 0 <= j < seen@.len() && #[trigger] seen@[j]@ == f.namespace@;
                assert(all_files[j].namespace@ == all_files[i].namespace@);
            }
            if namespace_seen(all_files, i) {
                let j = choose|j: int| 0 <= j < i && #[trigger] all_files[j].namespace@ == all_files[i].namespace@;
                assert(seen@[j]@ == f.namespace@);
            }
        }
        let checked = validate_namespace(f.namespace.as_str());
        let LoadedFile { path, namespace, stem, table, dice } = f;
        seen.push(namespace.clone());
        match checked {
            Err(e) => {
                if !known {
                    errs.push(Error::Validation(e));
                }
            },
            Ok(()) => {
                match table {
                    Err(msg) => {
                        errs.push(Error::Yaml(msg));
                    },
                    Ok(t) => {
                        if !str_equal(t.id(), stem.as_str()) {
                            let id = t.id().to_owned();
                            errs.push(
                                Error::Validation(
                                    ValidationError::IdFilenameMismatch { id, filename: stem, path },
                                ),
                            );
                        } else {
                            proof {
                                assert(files_checkable(all_files));
                                assert(all_files[i].table matches Ok(x) && x == t);
                            }
                            match validate_table(&t, &dice) {
                                Err(e) => {
                                    errs.push(Error::Validation(e));
                                },
                                Ok(()) => {
                                    let mut fqid = String::new();
                                    push_str(&mut fqid, namespace.as_str());
                                    push_str(&mut fqid, ".");
                                    push_str(&mut fqid, stem.as_str());
                                    proof {
                                        reveal_strlit(".");
                                        assert(fqid@ =~= file_fqid(all_files[i]));
                                    }
                                    match registry.register(fqid, t) {
                                        Err(e) => {
                                            errs.push(Error::Validation(e));
                                        },
                                        Ok(()) => {},
                                    }
                                },
                            }
                        }
                    },
                }
            },
        }
        proof {
            let next = load_state(all_files, (i + 1) as nat);
            assert(mp + next.1 =~= mp + prev.1 || (mp + next.1).drop_last() =~= mp + prev.1);
            assert(errs@.take(earlier.len() as int) =~= before.take(earlier.len() as int)
                || errs@ == before);
        }
    }
    (registry, errs)
}

/// Load a collection from its files, after the problems `errors` already
/// found while reading it: the registry when there is no problem at all,
/// every problem otherwise.
pub fn load_collection(manifest_namespace: &str, files: Vec<LoadedFile>, errors: Vec<Error>) -> (r:
    Result<Registry, Error>)
    requires
        files_checkable(files@),
    ensures
        ({
            let state = load_state(files@, files@.len());
            let probs = manifest_problems(manifest_namespace@) + state.1;
            match r {
                Ok(reg) => errors@.len() == 0 && probs.len() == 0 && reg.wf() && reg@ == state.0,
                Err(e) => (errors@.len() > 0 || probs.len() > 0) && (e matches Error::Load(
                    LoadError::Multiple { errors: all },
                ) && reports_after(all@, errors@, probs, files@)),
            }
        }),
{
    let ghost fs = files@;
    let (registry, found) = build_registry(manifest_namespace, files);
    let ghost probs = manifest_problems(manifest_namespace@) + load_state(fs, fs.len()).1;
    let ghost e0 = errors@;
    let ghost f0 = found@;
    let mut all = errors;
    let mut more = found;
    all.append(&mut more);
    proof {
        assert(all@ == e0 + f0);
        assert(all@.take(e0.len() as int) =~= e0);
        assert forall|i: int| 0 <= i < probs.len() implies reports_problem(
            #[trigger] all@[e0.len() + i],
            probs[i],
            fs,
        ) by {
            assert(all@[e0.len() + i] == f0[Seq::<Error>::empty().len() + i]);
        }
    }
    if all.len() == 0 {
        Ok(registry)
    } else {
        Err(Error::Load(LoadError::Multiple { errors: all }))
    }
}

/// File `f` passed every check and its table is `entry`, registered
/// under `namespace.stem`.
pub open spec fn passed(f: LoadedFile, entry: (Seq<char>, Table)) -> bool {
    &&& namespace_problem(f.namespace@) is None
    &&& f.table == Ok::<Table, String>(entry.1)
    &&& entry.1.spec_id() == f.stem@
    &&& table_accepted(entry.1, f.dice)
    &&& entry.0 == file_fqid(f)
}

/// Every table the loader registers comes from a file that passed every
/// check (valid namespace, id equal to the file stem, accepted by
/// validation) and is registered under `namespace.stem`; no id is
/// registered twice.
pub proof fn lemma_loaded_tables_passed(files: Seq<LoadedFile>, n: nat)
    requires
        n <= files.len(),
    ensures
        keys_distinct(load_state(files, n).0),
        forall|i: int|
            #![trigger load_state(files, n).0[i]]
            0 <= i < load_state(files, n).0.len() ==> exists|k: int|
                0 <= k < n && passed(#[trigger] files[k], load_state(files, n).0[i]),
    decreases n,
{
    if n > 0 {
        lemma_loaded_tables_passed(files, (n - 1) as nat);
        let prev = load_state(files, (n - 1) as nat).0;
        let cur = load_state(files, n).0;
        let f = files[n - 1];
        if cur.len() > prev.len() {
            assert(cur == prev.push((file_fqid(f), f.table->Ok_0)));
            assert forall|i: int, j: int| 0 <= i < cur.len() && 0 <= j < cur.len() && i != j implies cur[i].0 != cur[j].0 by {
                if i == prev.len() {
                    assert(cur[j] == prev[j]);
                } else if j == prev.len() {
                    assert(cur[i] == prev[i]);
                } else {
                    assert(cur[i] == prev[i] && cur[j] == prev[j]);
                }
            }
            assert forall|i: int| #![trigger cur[i]] 0 <= i < cur.len() implies exists|k: int|
                0 <= k < n && passed(#[trigger] files[k], cur[i]) by {
                if i < prev.len() {
                    assert(cur[i] == prev[i]);
                    let k = choose|k: int| 0 <= k < n - 1 && passed(#[trigger] files[k], prev[i]);
                    assert(passed(files[k], cur[i]));
                } else {
                    assert(passed(files[n - 1], cur[i]));
                }
            }
        } else {
            assert(cur == prev);
            assert forall|i: int| #![trigger cur[i]] 0 <= i < cur.len() implies exists|k: int|
                0 <= k < n && passed(#[trigger] files[k], cur[i]) by {
                let k = choose|k: int| 0 <= k < n - 1 && passed(#[trigger] files[k], prev[i]);
                assert(passed(files[k], cur[i]));
            }
        }
    }
}

/// Whether every table among `files` lies where validation is defined
/// (see [`crate::validator::table_checkable`]).
pub fn files_are_checkable(files: &Vec<LoadedFile>) -> (r: bool)
    ensures
        r == files_checkable(files@),
{
    let mut i: usize = 0;
    while i < files.len()
        invariant
            i <= files@.len(),
            forall|k: int|
                0 <= k < i ==> (#[trigger] files@[k].table matches Ok(t) ==> table_check_defined(t, files@[k].dice)),
        decreases files@.len() - i,
    {
        match &files[i].table {
            Ok(t) => {
                if !crate::validator::table_checkable(t, &files[i].dice) {
                    return false;
                }
            },
            Err(_) => {},
        }
        i = i + 1;
    }
    true
}

} // verus!
