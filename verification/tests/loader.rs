use fatescroll::dice::{DiceFacts, DiceShape, RollShape, ScoringMode};
use fatescroll::error::{Error, LoadError, ValidationError};
use fatescroll::loader::{build_registry, LoadedFile};
use fatescroll::models::{ChainRef, ResultEntry, Table};

fn d4() -> DiceFacts {
    DiceFacts {
        parsed: Ok(DiceShape::Roll(RollShape { count: 1, sides: 4, has_modifiers: false, scoring: ScoringMode::Sum })),
        simulated: Ok((1, 4)),
    }
}

fn table(id: &str, name: &str, chain: Option<Vec<ChainRef>>) -> Table {
    Table::Simple {
        id: id.into(),
        name: name.into(),
        tags: vec![],
        notes: vec![],
        roll: "1d4".into(),
        modifier_range: None,
        results: vec![
            ResultEntry { min: 1, max: 2, text: Some("A".into()), chain, bindings: vec![] },
            ResultEntry { min: 3, max: 4, text: Some("B".into()), chain: None, bindings: vec![] },
        ],
    }
}

fn file(namespace: &str, stem: &str, table: Result<Table, String>) -> LoadedFile {
    LoadedFile {
        path: format!("{}/{stem}.yaml", namespace.replace('.', "/")),
        namespace: namespace.into(),
        stem: stem.into(),
        table,
        dice: d4(),
    }
}

/// The files of a valid collection: terrain, NPC and encounter tables,
/// with a compound NPC generator and chained encounters.
fn valid_files() -> Vec<LoadedFile> {
    vec![
        file("test.terrain", "wilderness", Ok(table("wilderness", "Wilderness Terrain", None))),
        file("test.npc", "npc-occupation", Ok(table("npc-occupation", "NPC Occupation", None))),
        file("test.npc", "npc-disposition", Ok(table("npc-disposition", "NPC Disposition", None))),
        file("test.npc", "npc-quirk", Ok(table("npc-quirk", "NPC Quirk", None))),
        file(
            "test.npc",
            "quick-npc",
            Ok(Table::Compound {
                id: "quick-npc".into(),
                name: "Quick NPC".into(),
                tags: vec![],
                notes: vec![],
                tables: vec!["npc-occupation".into(), "npc-disposition".into(), "npc-quirk".into()],
            }),
        ),
        file(
            "test.encounters",
            "wilderness-encounter",
            Ok(table(
                "wilderness-encounter",
                "Wilderness Encounter",
                Some(vec![ChainRef::Simple("animal-type".into())]),
            )),
        ),
        file("test.encounters", "animal-type", Ok(table("animal-type", "Animal Type", None))),
    ]
}

#[test]
fn loader_load_valid_collection() {
    let registry = fatescroll::load_collection("test", valid_files(), vec![]).unwrap();
    assert!(registry.get("test.terrain.wilderness").is_some());
    assert!(registry.get("test.npc.npc-occupation").is_some());
    assert!(registry.get("test.npc.npc-disposition").is_some());
    assert!(registry.get("test.npc.npc-quirk").is_some());
    assert!(registry.get("test.npc.quick-npc").is_some());
    assert!(registry.get("test.encounters.wilderness-encounter").is_some());
    assert!(registry.get("test.encounters.animal-type").is_some());
}

#[test]
fn loader_load_manifest_not_found() {
    let missing = Error::Load(LoadError::ManifestNotFound { path: "/nonexistent/manifest.yaml".into() });
    // Finding the manifest happens outside the library; a missing one
    // reaches it as a problem found while reading, which it reports first
    // and unchanged.
    let result = fatescroll::load_collection("test", vec![], vec![missing]);
    assert!(result.is_err());
    match result {
        Err(Error::Load(LoadError::Multiple { errors })) => {
            assert_eq!(errors.len(), 1);
            assert!(errors[0].message().contains("/nonexistent/manifest.yaml"));
        }
        other => panic!("expected the reading problem, got {other:?}"),
    }
}

#[test]
fn loader_load_rejects_id_filename_mismatch() {
    let files = vec![file("test.things", "actual-filename", Ok(table("wrong-id", "Wrong", None)))];
    let err = fatescroll::load_collection("test", files, vec![]).unwrap_err();
    let err_msg = err.message();
    assert!(
        err_msg.contains("wrong-id") && err_msg.contains("actual-filename"),
        "Expected id mismatch error, got: {err_msg}"
    );
}

#[test]
fn loader_loaded_table_has_correct_data() {
    let registry = fatescroll::load_collection("test", valid_files(), vec![]).unwrap();
    let table = registry.get("test.terrain.wilderness").unwrap();
    assert_eq!(table.name(), "Wilderness Terrain");
}

#[test]
fn load_invalid_collection_accumulates_errors() {
    let mut gappy = table("gappy", "Gappy", None);
    if let Table::Simple { results, .. } = &mut gappy {
        results.remove(1);
    }
    let files = vec![
        file("test.bad", "gappy", Ok(gappy)),
        file("test.bad", "broken-yaml", Err("mapping values are not allowed here".into())),
        file("test.bad", "fine", Ok(table("fine", "Fine", None))),
    ];
    match fatescroll::load_collection("test", files, vec![]).unwrap_err() {
        Error::Load(LoadError::Multiple { errors }) => {
            assert!(errors.len() >= 2, "Expected multiple errors, got {}", errors.len());
            assert!(matches!(&errors[0], Error::Validation(ValidationError::RangeGap { .. })));
            assert!(matches!(&errors[1], Error::Yaml(m) if m == "mapping values are not allowed here"));
        }
        other => panic!("Expected LoadError::Multiple, got: {}", other.message()),
    }
}

#[test]
fn invalid_file_namespace_is_reported_once() {
    let files = vec![
        file("BAD", "one", Ok(table("one", "One", None))),
        file("BAD", "two", Ok(table("two", "Two", None))),
    ];
    let (registry, errors) = build_registry("test", files);
    assert_eq!(registry.all_tables().len(), 0);
    assert_eq!(errors.len(), 1);
    assert!(errors[0].message().contains("invalid namespace"));
}

#[test]
fn invalid_manifest_namespace_is_reported_first() {
    let (registry, errors) = build_registry("Bad..ns", valid_files());
    assert_eq!(registry.all_tables().len(), 7);
    assert_eq!(errors.len(), 1);
    assert!(matches!(&errors[0], Error::Validation(ValidationError::InvalidNamespace { namespace, .. }) if namespace == "Bad..ns"));
}

#[test]
fn duplicate_fqid_keeps_first_table() {
    let files = vec![
        file("test.x", "same", Ok(table("same", "First", None))),
        file("test.x", "same", Ok(table("same", "Second", None))),
    ];
    let (registry, errors) = build_registry("test", files);
    assert_eq!(registry.get("test.x.same").unwrap().name(), "First");
    assert_eq!(errors.len(), 1);
    assert!(matches!(&errors[0], Error::Validation(ValidationError::DuplicateId { id }) if id == "test.x.same"));
}

#[test]
fn unresolved_references_fail_the_load() {
    let files = vec![file(
        "test.x",
        "lonely",
        Ok(table("lonely", "Lonely", Some(vec![ChainRef::Simple("missing".into())]))),
    )];
    match fatescroll::load_collection("test", files, vec![]).unwrap_err() {
        Error::Load(LoadError::Multiple { errors }) => {
            assert_eq!(errors.len(), 1);
            assert!(errors[0].message().contains("unresolved chain reference 'missing' in table 'Lonely'"));
        }
        other => panic!("Expected LoadError::Multiple, got: {}", other.message()),
    }
}

#[test]
fn earlier_read_problems_come_first() {
    let read = Error::Validation(ValidationError::DirectoryNotFound { path: "gone".into() });
    match fatescroll::load_collection("Bad", valid_files(), vec![read]).unwrap_err() {
        Error::Load(LoadError::Multiple { errors }) => {
            assert_eq!(errors.len(), 2);
            assert_eq!(errors[0].message(), "validation error: directory not found: gone");
            assert!(errors[1].message().contains("invalid namespace 'Bad'"));
        }
        other => panic!("Expected LoadError::Multiple, got: {}", other.message()),
    }
}

#[test]
fn multiple_error_message_lists_each_error() {
    let err = Error::Load(LoadError::Multiple {
        errors: vec![
            Error::Validation(ValidationError::DuplicateId { id: "a.b".into() }),
            Error::Yaml("bad".into()),
        ],
    });
    assert_eq!(
        err.message(),
        "loading error: multiple errors during load:\n  - validation error: duplicate table ID 'a.b'\n  - YAML parse error: bad"
    );
}

#[test]
fn loader_full_report_runs_both_stages() {
    // A mismatched id stops loading before the references are checked;
    // the full report also names the unresolved chain.
    let files = || {
        vec![
            file("t.core", "a", Ok(table("a", "A", Some(vec![ChainRef::Simple("missing-table".into())])))),
            file("t.core", "b", Ok(table("not-b", "B", None))),
        ]
    };
    let loaded = fatescroll::load_collection("t", files(), vec![]);
    let load_errors = match loaded {
        Err(Error::Load(LoadError::Multiple { errors })) => errors,
        other => panic!("expected load errors, got {other:?}"),
    };
    assert_eq!(load_errors.len(), 1);
    let full = fatescroll::collection_problems("t", files());
    assert_eq!(full.len(), 2);
    assert_eq!(full[0].message(), load_errors[0].message());
    assert!(matches!(&full[1], Error::Validation(ValidationError::UnresolvedChain { reference, .. }) if reference == "missing-table"));
    assert!(fatescroll::collection_problems("t", valid_files()).is_empty());
}
