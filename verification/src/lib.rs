//! fatescroll: a structured randomness engine for random tables.
//!
//! The verified library holds the table model, the registry with its
//! reference resolution, searching, validation, template generation,
//! display formatting, collection loading, the expression language of
//! result text (lexer, parser, type checker and evaluator), the fixing of
//! table ids and references, the table editor's dice queries and the
//! decision logic of rolling.

pub mod text;
pub mod models;
pub mod error;
pub mod registry;
pub mod search;
pub mod dice;
pub mod validator;
pub mod init;
pub mod display;
pub mod roller;
pub mod loader;
pub mod collection;
pub mod expression;
pub mod parser;
pub mod checker;
pub mod result_text;
pub mod fixer;
pub mod evaluator;
pub mod editor;

use vstd::prelude::*;
use crate::error::{Error, LoadError, ValidationError};
use crate::loader::LoadProblem;
use crate::loader::{files_checkable, load_state, manifest_problems, reports_after, reports_problem, LoadedFile};
use crate::registry::Registry;
use crate::validator::{reference_problems, reports, validate_references, RefProblem};

verus! {

fn validation_errors(errs: Vec<ValidationError>) -> (r: Vec<Error>)
    ensures
        r@.len() == errs@.len(),
        forall|i: int| 0 <= i < r@.len() ==> #[trigger] r@[i] == Error::Validation(errs@[i]),
{
    let mut r: Vec<Error> = Vec::new();
    for e in it: errs.into_iter()
        invariant
            it.seq() == errs@,
            r@.len() == it.index(),
            forall|i: int| 0 <= i < it.index() ==> #[trigger] r@[i] == Error::Validation(errs@[i]),
    {
        r.push(Error::Validation(e));
    }
    r
}

/// What [`load_collection`] gives for `files` after the problems `errors`
/// found while reading them: every problem of building the registry when
/// there is any; else every unresolved reference when there is any; else
/// the registry.
pub open spec fn loading_outcome(
    manifest_namespace: Seq<char>,
    files: Seq<LoadedFile>,
    errors: Seq<Error>,
    r: Result<Registry, Error>,
) -> bool {
    let state = load_state(files, files.len());
    let probs = manifest_problems(manifest_namespace) + state.1;
    let refs = reference_problems(state.0, state.0);
    &&& (errors.len() > 0 || probs.len() > 0) ==> (r matches Err(
        Error::Load(LoadError::Multiple { errors: all }),
    ) && reports_after(all@, errors, probs, files))
    &&& (errors.len() == 0 && probs.len() == 0 && refs.len() == 0) ==> (r matches Ok(reg) && reg.wf()
        && reg@ == state.0)
    &&& (errors.len() == 0 && probs.len() == 0 && refs.len() > 0) ==> (r matches Err(
        Error::Load(LoadError::Multiple { errors: all }),
    ) && all@.len() == refs.len() && forall|i: int|
        0 <= i < refs.len() ==> (#[trigger] all@[i] matches Error::Validation(v) && reports(v, refs[i])))
}

/// Load and validate a collection: build its registry from its files
/// (see [`loader::load_collection`]), then check that every chain and compound
/// reference resolves. The registry is returned only when nothing at all
/// is wrong; otherwise every problem of the first stage that found any.
pub fn load_collection(manifest_namespace: &str, files: Vec<LoadedFile>, errors: Vec<Error>) -> (r:
    Result<Registry, Error>)
    requires
        files_checkable(files@),
    ensures
        loading_outcome(manifest_namespace@, files@, errors@, r),
{
    let registry = loader::load_collection(manifest_namespace, files, errors)?;
    match validate_references(&registry) {
        Ok(()) => Ok(registry),
        Err(errs) => {
            let ghost refs = errs@;
            let all = validation_errors(errs);
            assert forall|i: int| 0 <= i < all@.len() implies (#[trigger] all@[i] matches Error::Validation(v)
                && reports(v, reference_problems(registry@, registry@)[i])) by {
                assert(all@[i] == Error::Validation(refs[i]));
            }
            Err(Error::Load(LoadError::Multiple { errors: all }))
        },
    }
}

/// What [`collection_problems`] reports for `files`: every problem of
/// building the registry, in order, then every unresolved reference of the
/// registry built, in order.
pub open spec fn full_report(manifest_namespace: Seq<char>, files: Seq<LoadedFile>, r: Seq<Error>) -> bool {
    let state = load_state(files, files.len());
    let probs = manifest_problems(manifest_namespace) + state.1;
    let refs = reference_problems(state.0, state.0);
    &&& r.len() == probs.len() + refs.len()
    &&& forall|i: int| 0 <= i < probs.len() ==> reports_problem(#[trigger] r[i], probs[i], files)
    &&& forall|i: int|
        0 <= i < refs.len() ==> (#[trigger] r[probs.len() + i] matches Error::Validation(v) && reports(
            v,
            refs[i],
        ))
}

/// Every problem of a collection's files, without stopping between the
/// stages: the problems of building its registry, then the unresolved
/// references of the registry that was built from the files that passed.
pub fn collection_problems(manifest_namespace: &str, files: Vec<LoadedFile>) -> (r: Vec<Error>)
    requires
        files_checkable(files@),
    ensures
        full_report(manifest_namespace@, files@, r@),
{
    let ghost fs = files@;
    let (registry, mut found) = loader::build_registry(manifest_namespace, files);
    let ghost f0 = found@;
    match validate_references(&registry) {
        Ok(()) => {},
        Err(errs) => {
            let ghost refs = errs@;
            let mut more = validation_errors(errs);
            let ghost m0 = more@;
            found.append(&mut more);
            proof {
                assert(found@ == f0 + m0);
                assert forall|i: int| 0 <= i < m0.len() implies (#[trigger] found@[f0.len() + i] matches Error::Validation(v)
                    && reports(v, reference_problems(registry@, registry@)[i])) by {
                    assert(found@[f0.len() + i] == m0[i]);
                    assert(m0[i] == Error::Validation(refs[i]));
                }
            }
        },
    }
    proof {
        let probs = manifest_problems(manifest_namespace@) + load_state(fs, fs.len()).1;
        assert forall|i: int| 0 <= i < probs.len() implies reports_problem(#[trigger] found@[i], probs[i], fs) by {
            assert(found@[i] == f0[0 + i]);
        }
    }
    found
}

/// The problems of building the registry of `files`, in order.
pub open spec fn build_problems(manifest_namespace: Seq<char>, files: Seq<LoadedFile>) -> Seq<LoadProblem> {
    manifest_problems(manifest_namespace) + load_state(files, files.len()).1
}

/// The unresolved references of the registry built from `files`.
pub open spec fn unresolved_references(files: Seq<LoadedFile>) -> Seq<RefProblem> {
    reference_problems(load_state(files, files.len()).0, load_state(files, files.len()).0)
}

/// `e` reports the unresolved reference `p`.
pub open spec fn reports_reference(e: Error, p: RefProblem) -> bool {
    e matches Error::Validation(v) && reports(v, p)
}

/// `a` and `b` report the same problem of the collection of `files`.
pub open spec fn same_problem(a: Error, b: Error, manifest_namespace: Seq<char>, files: Seq<LoadedFile>) -> bool {
    ||| exists|i: int|
        0 <= i < build_problems(manifest_namespace, files).len() && #[trigger] reports_problem(
            a,
            build_problems(manifest_namespace, files)[i],
            files,
        ) && reports_problem(b, build_problems(manifest_namespace, files)[i], files)
    ||| exists|i: int|
        0 <= i < unresolved_references(files).len() && #[trigger] reports_reference(
            a,
            unresolved_references(files)[i],
        ) && reports_reference(b, unresolved_references(files)[i])
}

/// The full report misses nothing that loading reports: a collection
/// loads exactly when its full report is empty, and when loading fails,
/// each of its errors reports the same problem as the full report's error
/// at the same place. (Loading stops after the first stage that finds
/// problems; the full report goes on to the references.)
pub proof fn lemma_full_report_covers_loading(
    manifest_namespace: Seq<char>,
    files: Seq<LoadedFile>,
    loaded: Result<Registry, Error>,
    full: Seq<Error>,
)
    requires
        loading_outcome(manifest_namespace, files, Seq::empty(), loaded),
        full_report(manifest_namespace, files, full),
    ensures
        loaded is Ok <==> full.len() == 0,
        loaded matches Err(Error::Load(LoadError::Multiple { errors: all })) ==> all@.len() <= full.len()
            && forall|i: int|
            0 <= i < all@.len() ==> same_problem(#[trigger] all@[i], full[i], manifest_namespace, files),
{
    let state = load_state(files, files.len());
    let probs = manifest_problems(manifest_namespace) + state.1;
    let refs = reference_problems(state.0, state.0);
    if let Err(Error::Load(LoadError::Multiple { errors: all })) = loaded {
        if probs.len() > 0 {
            assert forall|i: int| 0 <= i < all@.len() implies same_problem(
                #[trigger] all@[i],
                full[i],
                manifest_namespace,
                files,
            ) by {
                assert(probs == build_problems(manifest_namespace, files));
                assert(reports_problem(all@[0 + i], probs[i], files));
                assert(reports_problem(full[i], probs[i], files));
            }
        } else {
            assert forall|i: int| 0 <= i < all@.len() implies same_problem(
                #[trigger] all@[i],
                full[i],
                manifest_namespace,
                files,
            ) by {
                assert(full[probs.len() + i] == full[i]);
                assert(full[probs.len() + i] matches Error::Validation(v) && reports(v, refs[i]));
                assert(all@[i] matches Error::Validation(v) && reports(v, refs[i]));
                assert(refs == unresolved_references(files));
                assert(reports_reference(all@[i], unresolved_references(files)[i]));
            }
        }
    }
}

} // verus!
