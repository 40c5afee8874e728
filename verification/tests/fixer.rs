use fatescroll::error::{Error, LoadError};
use fatescroll::fixer::{
    corrections_from, extract_references, fix_id, fix_ids, fix_references, update_references, Corrections,
    FixAction, FixResult, FixWarning, IdFix, RefHandling, TableSource, Yaml,
};

fn text(s: &str) -> Yaml {
    Yaml::Text(s.to_string())
}

fn mapping(entries: Vec<(&str, Yaml)>) -> Yaml {
    Yaml::Mapping(entries.into_iter().map(|(k, v)| (text(k), v)).collect())
}

fn simple_table(id: Option<&str>, chains: Vec<Yaml>) -> Yaml {
    let mut entries = Vec::new();
    if let Some(id) = id {
        entries.push(("id", text(id)));
    }
    entries.push(("name", text("A Table")));
    entries.push(("type", text("simple")));
    entries.push((
        "results",
        Yaml::List(vec![mapping(vec![
            ("min", Yaml::Number("1".to_string())),
            ("max", Yaml::Number("4".to_string())),
            ("text", text("Something")),
            ("chain", Yaml::List(chains)),
        ])]),
    ));
    mapping(entries)
}

fn source(path: &str, stem: &str, document: Result<Yaml, String>) -> TableSource {
    TableSource { path: path.to_string(), stem: stem.to_string(), document }
}

#[test]
fn fixer_adds_missing_id_first() {
    let mut doc = simple_table(None, vec![]);
    assert_eq!(fix_id(&mut doc, "my-table"), IdFix::Added);
    match &doc {
        Yaml::Mapping(m) => {
            assert_eq!(m[0], (text("id"), text("my-table")));
            assert_eq!(m[1].0, text("name"));
        }
        other => panic!("expected a mapping, got {other:?}"),
    }
}

#[test]
fn fixer_corrects_wrong_id_in_place() {
    let mut doc = simple_table(Some("wrong-name"), vec![]);
    assert_eq!(fix_id(&mut doc, "correct-name"), IdFix::Corrected("wrong-name".to_string()));
    assert_eq!(doc, simple_table(Some("correct-name"), vec![]));
}

#[test]
fn fixer_keeps_correct_id() {
    let mut doc = simple_table(Some("already-correct"), vec![]);
    assert_eq!(fix_id(&mut doc, "already-correct"), IdFix::Unchanged);
    assert_eq!(doc, simple_table(Some("already-correct"), vec![]));
}

#[test]
fn fixer_reports_non_string_id() {
    let mut doc = mapping(vec![("id", Yaml::Number("7".to_string()))]);
    assert_eq!(fix_id(&mut doc, "seven"), IdFix::Corrected("<non-string>".to_string()));
}

#[test]
fn fixer_refuses_non_mapping_document() {
    let mut doc = text("just a string, not a mapping");
    assert_eq!(fix_id(&mut doc, "scalar"), IdFix::NotMapping);
}

#[test]
fn fixer_first_pass_collects_actions_errors_and_writes() {
    let files = vec![
        source("tables/good.yaml", "good", Ok(simple_table(Some("good"), vec![]))),
        source("tables/bad.yaml", "bad", Err("did not parse".to_string())),
        source("tables/scalar.yaml", "scalar", Ok(text("x"))),
        source("tables/renamed.yaml", "renamed", Ok(simple_table(Some("old-name"), vec![]))),
    ];
    let (result, writes) = fix_ids(files, vec![Error::Io("discovery".to_string())]);
    assert_eq!(
        result.actions,
        vec![
            FixAction::Unchanged { path: "tables/good.yaml".to_string() },
            FixAction::Corrected {
                path: "tables/renamed.yaml".to_string(),
                old_id: "old-name".to_string(),
                id: "renamed".to_string(),
            },
        ]
    );
    assert_eq!(result.errors.len(), 3);
    assert!(matches!(&result.errors[0], Error::Io(m) if m == "discovery"));
    assert!(matches!(&result.errors[1], Error::Yaml(m) if m == "did not parse"));
    match &result.errors[2] {
        Error::Load(LoadError::InvalidFormat { path, reason }) => {
            assert_eq!(path, "tables/scalar.yaml");
            assert_eq!(reason, "YAML root is not a mapping");
        }
        other => panic!("expected a format error, got {other:?}"),
    }
    assert_eq!(writes.len(), 1);
    assert_eq!(writes[0].0, "tables/renamed.yaml");
    assert_eq!(writes[0].1, simple_table(Some("renamed"), vec![]));
    let pairs = corrections_from(&result.actions);
    assert_eq!(pairs, vec![("old-name".to_string(), "renamed".to_string())]);
}

#[test]
fn fixer_extracts_references_in_order() {
    let doc = simple_table(
        Some("mishap"),
        vec![mapping(vec![("table", text("mishap")), ("reroll", Yaml::List(vec![]))]), text("plain-ref")],
    );
    assert_eq!(extract_references(&doc), vec!["mishap".to_string(), "plain-ref".to_string()]);
    let compound = mapping(vec![("id", text("quick-npc")), ("tables", Yaml::List(vec![text("npc-job"), text("x")]))]);
    assert_eq!(extract_references(&compound), vec!["npc-job".to_string(), "x".to_string()]);
    assert!(extract_references(&text("scalar")).is_empty());
}

#[test]
fn fixer_updates_references_in_structured_chain() {
    let mut doc = simple_table(
        Some("mishap"),
        vec![mapping(vec![("table", text("old-name")), ("reroll", Yaml::List(vec![]))]), text("plain-old-ref")],
    );
    let corrections = Corrections::new(
        vec![
            ("old-name".to_string(), "new-name".to_string()),
            ("plain-old-ref".to_string(), "plain-new-ref".to_string()),
        ],
        vec!["new-name".to_string(), "plain-new-ref".to_string()],
    );
    let updated = update_references(&mut doc, &corrections);
    assert_eq!(
        updated,
        vec![
            ("old-name".to_string(), "new-name".to_string()),
            ("plain-old-ref".to_string(), "plain-new-ref".to_string()),
        ]
    );
    assert_eq!(extract_references(&doc), vec!["new-name".to_string(), "plain-new-ref".to_string()]);
    assert_eq!(
        doc,
        simple_table(
            Some("mishap"),
            vec![mapping(vec![("table", text("new-name")), ("reroll", Yaml::List(vec![]))]), text("plain-new-ref")],
        )
    );
}

#[test]
fn fixer_ignores_renamings_to_unknown_stems_and_keeps_the_last() {
    let corrections = Corrections::new(
        vec![("a".to_string(), "x".to_string()), ("a".to_string(), "y".to_string())],
        vec!["x".to_string()],
    );
    assert_eq!(corrections.get("a"), None);
    let corrections = Corrections::new(
        vec![("a".to_string(), "y".to_string()), ("a".to_string(), "x".to_string())],
        vec!["x".to_string()],
    );
    assert_eq!(corrections.get("a"), Some("x".to_string()));
    assert_eq!(corrections.get("b"), None);
}

#[test]
fn fixer_second_pass_warns_about_stale_references() {
    let files = vec![
        source("tables/wolf-count.yaml", "wolf-count", Ok(simple_table(Some("wolf-count"), vec![]))),
        source("tables/wilderness.yaml", "wilderness", Ok(simple_table(Some("wilderness"), vec![text("wolf-counter")]))),
    ];
    let mut result = FixResult { actions: vec![], warnings: vec![], errors: vec![] };
    let writes = fix_references(
        &mut result,
        files,
        vec![],
        vec![("wolf-counter".to_string(), "wolf-count".to_string())],
        RefHandling::WarnOnly,
    );
    assert!(writes.is_empty());
    assert!(result.actions.is_empty());
    assert_eq!(
        result.warnings,
        vec![FixWarning::StaleReference {
            path: "tables/wilderness.yaml".to_string(),
            reference: "wolf-counter".to_string(),
            suggested: "wolf-count".to_string(),
        }]
    );
}

#[test]
fn fixer_second_pass_updates_references_when_asked() {
    let files = vec![
        source("tables/wolf-count.yaml", "wolf-count", Ok(simple_table(Some("wolf-count"), vec![]))),
        source("tables/encounter.yaml", "encounter", Ok(simple_table(Some("encounter"), vec![text("wolf-counter")]))),
        source("tables/broken.yaml", "broken", Err("bad yaml".to_string())),
    ];
    let mut result = FixResult { actions: vec![], warnings: vec![], errors: vec![] };
    let writes = fix_references(
        &mut result,
        files,
        vec![],
        vec![("wolf-counter".to_string(), "wolf-count".to_string())],
        RefHandling::Update,
    );
    assert!(result.warnings.is_empty());
    assert_eq!(
        result.actions,
        vec![FixAction::UpdatedReference {
            path: "tables/encounter.yaml".to_string(),
            old_ref: "wolf-counter".to_string(),
            new_ref: "wolf-count".to_string(),
        }]
    );
    assert_eq!(writes.len(), 1);
    assert_eq!(writes[0].0, "tables/encounter.yaml");
    assert_eq!(writes[0].1, simple_table(Some("encounter"), vec![text("wolf-count")]));
    assert_eq!(result.errors.len(), 1);
    assert!(matches!(&result.errors[0], Error::Yaml(m) if m == "bad yaml"));
}

#[test]
fn fixer_tagged_document_keeps_its_tag() {
    let mut doc = Yaml::Tagged("!table".to_string(), Box::new(mapping(vec![("id", text("old"))])));
    assert_eq!(fix_id(&mut doc, "new"), IdFix::Corrected("old".to_string()));
    assert_eq!(doc, Yaml::Tagged("!table".to_string(), Box::new(mapping(vec![("id", text("new"))]))));
}

fn dup(y: &Yaml) -> Yaml {
    match y {
        Yaml::Null => Yaml::Null,
        Yaml::Bool(b) => Yaml::Bool(*b),
        Yaml::Number(n) => Yaml::Number(n.clone()),
        Yaml::Text(s) => Yaml::Text(s.clone()),
        Yaml::List(items) => Yaml::List(items.iter().map(dup).collect()),
        Yaml::Mapping(entries) => Yaml::Mapping(entries.iter().map(|(k, v)| (dup(k), dup(v))).collect()),
        Yaml::Tagged(t, v) => Yaml::Tagged(t.clone(), Box::new(dup(v))),
    }
}

/// A table file of the test collection: its name under `tables/`, and its
/// parsed document (or the parser's message).
type TestFile = (&'static str, Result<Yaml, String>);

fn sources_of(files: &[TestFile]) -> Vec<TableSource> {
    files
        .iter()
        .map(|(name, doc)| {
            let stem = name.rsplit_once('.').map_or(*name, |(s, _)| s);
            let document = match doc {
                Ok(y) => Ok(dup(y)),
                Err(e) => Err(e.clone()),
            };
            source(&format!("tables/{name}"), stem, document)
        })
        .collect()
}

fn apply_writes(files: &mut [TestFile], writes: Vec<(String, Yaml)>) {
    for (path, doc) in writes {
        for f in files.iter_mut() {
            if path == format!("tables/{}", f.0) {
                f.1 = Ok(dup(&doc));
            }
        }
    }
}

/// Both passes of fixing a collection, with the files held in memory: the
/// ids first, then (when any id was corrected) the references, reading
/// the documents as the first pass left them.
fn fix_in_memory(files: &mut [TestFile], mode: RefHandling) -> FixResult {
    let (mut result, writes) = fix_ids(sources_of(files), vec![]);
    apply_writes(files, writes);
    let pairs = corrections_from(&result.actions);
    if !pairs.is_empty() {
        let writes = fix_references(&mut result, sources_of(files), vec![], pairs, mode);
        apply_writes(files, writes);
    }
    result
}

fn id_of(doc: &Yaml) -> Option<&str> {
    match doc {
        Yaml::Mapping(entries) => entries.iter().find_map(|(k, v)| match (k, v) {
            (Yaml::Text(k), Yaml::Text(v)) if k == "id" => Some(v.as_str()),
            _ => None,
        }),
        _ => None,
    }
}

fn compound_table(id: &str, tables: Vec<&str>) -> Yaml {
    mapping(vec![
        ("id", text(id)),
        ("name", text("Quick NPC")),
        ("type", text("compound")),
        ("tags", Yaml::List(vec![])),
        ("tables", Yaml::List(tables.into_iter().map(text).collect())),
    ])
}

#[test]
fn fix_adds_missing_id() {
    let mut files = [("my-table.yaml", Ok(simple_table(None, vec![])))];
    let result = fix_in_memory(&mut files, RefHandling::WarnOnly);
    assert_eq!(result.actions.len(), 1);
    assert!(matches!(&result.actions[0], FixAction::Added { id, .. } if id == "my-table"));
    assert!(result.warnings.is_empty());
    assert!(result.errors.is_empty());
    assert_eq!(id_of(files[0].1.as_ref().unwrap()), Some("my-table"));
}

#[test]
fn fix_corrects_wrong_id() {
    let mut files = [("correct-name.yaml", Ok(simple_table(Some("wrong-name"), vec![])))];
    let result = fix_in_memory(&mut files, RefHandling::WarnOnly);
    assert_eq!(result.actions.len(), 1);
    assert!(result.warnings.is_empty());
    assert!(
        matches!(&result.actions[0], FixAction::Corrected { old_id, id, .. } if old_id == "wrong-name" && id == "correct-name")
    );
    let doc = files[0].1.as_ref().unwrap();
    assert_eq!(id_of(doc), Some("correct-name"));
    assert!(!format!("{doc:?}").contains("wrong-name"));
}

#[test]
fn fix_reports_unparseable_yaml() {
    let mut files = [
        ("good.yaml", Ok(simple_table(Some("good"), vec![]))),
        ("bad.yaml", Err("did not find expected node content".to_string())),
    ];
    let result = fix_in_memory(&mut files, RefHandling::WarnOnly);
    assert_eq!(result.actions.len(), 1);
    assert!(result.warnings.is_empty());
    assert_eq!(result.errors.len(), 1);
}

#[test]
fn fix_reports_non_mapping_yaml_as_format_error() {
    let mut files = [("scalar.yaml", Ok(text("just a string, not a mapping")))];
    let result = fix_in_memory(&mut files, RefHandling::WarnOnly);
    assert!(result.actions.is_empty());
    assert!(result.warnings.is_empty());
    assert_eq!(result.errors.len(), 1);
    match &result.errors[0] {
        Error::Load(LoadError::InvalidFormat { path, .. }) => assert!(path.contains("scalar.yaml")),
        other => panic!("Expected LoadError::InvalidFormat, got: {other:?}"),
    }
}

#[test]
fn fix_warns_about_stale_chain_reference() {
    let mut files = [
        ("wolf-count.yaml", Ok(simple_table(Some("wolf-counter"), vec![]))),
        ("wilderness.yaml", Ok(simple_table(Some("wilderness"), vec![text("wolf-counter")]))),
    ];
    let result = fix_in_memory(&mut files, RefHandling::WarnOnly);
    assert!(result.actions.iter().any(
        |a| matches!(a, FixAction::Corrected { old_id, id, .. } if old_id == "wolf-counter" && id == "wolf-count")
    ));
    assert_eq!(result.warnings.len(), 1);
    match &result.warnings[0] {
        FixWarning::StaleReference { reference, suggested, .. } => {
            assert_eq!(reference, "wolf-counter");
            assert_eq!(suggested, "wolf-count");
        }
    }
    assert_eq!(extract_references(files[1].1.as_ref().unwrap()), vec!["wolf-counter".to_string()]);
}

#[test]
fn fix_skips_correct_files() {
    let mut files = [("already-correct.yaml", Ok(simple_table(Some("already-correct"), vec![])))];
    let result = fix_in_memory(&mut files, RefHandling::WarnOnly);
    assert_eq!(result.actions.len(), 1);
    assert!(matches!(&result.actions[0], FixAction::Unchanged { .. }));
    assert!(result.warnings.is_empty());
    assert!(result.errors.is_empty());
}

#[test]
fn fix_updates_stale_chain_reference_when_forced() {
    let mut files = [
        ("wolf-count.yaml", Ok(simple_table(Some("wolf-counter"), vec![]))),
        ("wilderness.yaml", Ok(simple_table(Some("wilderness"), vec![text("wolf-counter")]))),
    ];
    let result = fix_in_memory(&mut files, RefHandling::Update);
    assert!(result.actions.iter().any(|a| matches!(a,
        FixAction::UpdatedReference { old_ref, new_ref, .. }
        if old_ref == "wolf-counter" && new_ref == "wolf-count"
    )));
    assert!(result.warnings.is_empty());
    assert_eq!(extract_references(files[1].1.as_ref().unwrap()), vec!["wolf-count".to_string()]);
}

#[test]
fn fix_warns_about_stale_compound_reference() {
    let mut files = [
        ("npc-occupation.yaml", Ok(simple_table(Some("npc-job"), vec![]))),
        ("quick-npc.yaml", Ok(compound_table("quick-npc", vec!["npc-job"]))),
    ];
    let result = fix_in_memory(&mut files, RefHandling::WarnOnly);
    assert!(result.actions.iter().any(|a| matches!(a, FixAction::Corrected { old_id, .. } if old_id == "npc-job")));
    assert_eq!(result.warnings.len(), 1);
    match &result.warnings[0] {
        FixWarning::StaleReference { reference, suggested, .. } => {
            assert_eq!(reference, "npc-job");
            assert_eq!(suggested, "npc-occupation");
        }
    }
}

#[test]
fn fix_handles_file_with_both_id_and_reference_correction() {
    let mut files = [
        ("wolf-count.yaml", Ok(simple_table(Some("wolf-counter"), vec![]))),
        ("encounter.yaml", Ok(simple_table(Some("encountr"), vec![text("wolf-counter")]))),
    ];
    let result = fix_in_memory(&mut files, RefHandling::Update);
    assert!(result.actions.iter().any(|a| matches!(a, FixAction::Corrected { id, .. } if id == "wolf-count")));
    assert!(result.actions.iter().any(|a| matches!(a, FixAction::Corrected { id, .. } if id == "encounter")));
    assert!(result.actions.iter().any(|a| matches!(a,
        FixAction::UpdatedReference { old_ref, new_ref, .. }
        if old_ref == "wolf-counter" && new_ref == "wolf-count"
    )));
    let doc = files[1].1.as_ref().unwrap();
    assert_eq!(id_of(doc), Some("encounter"), "id should be corrected");
    assert_eq!(extract_references(doc), vec!["wolf-count".to_string()], "reference should be updated to wolf-count");
    assert!(!format!("{doc:?}").contains("wolf-counter"), "old reference should be gone");
    assert!(!format!("{doc:?}").contains("encountr"), "old id should be gone");
}

#[test]
fn extract_references_from_structured_chain() {
    let value = simple_table(
        Some("mishap"),
        vec![
            mapping(vec![("table", text("mishap")), ("reroll", Yaml::List(vec![Yaml::Number("1".to_string())]))]),
            text("plain-ref"),
        ],
    );
    let refs = extract_references(&value);
    assert_eq!(refs.len(), 2);
    assert!(refs.contains(&"mishap".to_string()));
    assert!(refs.contains(&"plain-ref".to_string()));
}

#[test]
fn update_references_in_structured_chain() {
    let mut value = simple_table(
        Some("mishap"),
        vec![
            mapping(vec![("table", text("old-name")), ("reroll", Yaml::List(vec![Yaml::Number("1".to_string())]))]),
            text("plain-old-ref"),
        ],
    );
    let corrections = Corrections::new(
        vec![
            ("old-name".to_string(), "new-name".to_string()),
            ("plain-old-ref".to_string(), "plain-new-ref".to_string()),
        ],
        vec!["new-name".to_string(), "plain-new-ref".to_string()],
    );
    let updated = update_references(&mut value, &corrections);
    assert_eq!(updated.len(), 2);
    assert!(updated.contains(&("old-name".to_string(), "new-name".to_string())));
    assert!(updated.contains(&("plain-old-ref".to_string(), "plain-new-ref".to_string())));
    let refs = extract_references(&value);
    assert!(refs.contains(&"new-name".to_string()));
    assert!(refs.contains(&"plain-new-ref".to_string()));
}

#[test]
fn fix_no_warnings_when_no_corrections() {
    let mut files = [("already-correct.yaml", Ok(simple_table(Some("already-correct"), vec![])))];
    let result = fix_in_memory(&mut files, RefHandling::WarnOnly);
    assert!(result.warnings.is_empty());
}

#[test]
fn fixer_report_lines() {
    let added = FixAction::Added { path: "tables/a.yaml".into(), id: "a".into() };
    assert_eq!(added.message(), "Added id 'a' to tables/a.yaml");
    let corrected = FixAction::Corrected { path: "tables/b.yaml".into(), old_id: "x".into(), id: "b".into() };
    assert_eq!(corrected.message(), "Corrected id 'x' -> 'b' in tables/b.yaml");
    assert_eq!(FixAction::Unchanged { path: "tables/c.yaml".into() }.message(), "OK: tables/c.yaml");
    let updated = FixAction::UpdatedReference {
        path: "tables/d.yaml".into(),
        old_ref: "old".into(),
        new_ref: "new".into(),
    };
    assert_eq!(updated.message(), "Updated reference 'old' -> 'new' in tables/d.yaml");
    let warning = FixWarning::StaleReference {
        path: "tables/e.yaml".into(),
        reference: "wolf-counter".into(),
        suggested: "wolf-count".into(),
    };
    assert_eq!(warning.message(), "Warning: stale reference 'wolf-counter' in tables/e.yaml (should be 'wolf-count')");
}

#[test]
fn fixer_second_run_changes_nothing() {
    let mut files = [
        ("wolf-count.yaml", Ok(simple_table(Some("wolf-counter"), vec![]))),
        ("encounter.yaml", Ok(simple_table(None, vec![text("wolf-counter")]))),
        ("bad.yaml", Err("did not find expected node content".to_string())),
    ];
    let first = fix_in_memory(&mut files, RefHandling::Update);
    assert!(!first.errors.is_empty());
    let before: Vec<String> = files.iter().map(|f| format!("{:?}", f.1)).collect();
    let (second, writes) = fix_ids(sources_of(&files), vec![]);
    assert!(writes.is_empty());
    assert_eq!(second.actions.len(), 2);
    assert!(second.actions.iter().all(|a| matches!(a, FixAction::Unchanged { .. })));
    assert!(corrections_from(&second.actions).is_empty());
    assert_eq!(second.errors.len(), 1);
    let again = fix_in_memory(&mut files, RefHandling::Update);
    assert!(again.warnings.is_empty());
    let after: Vec<String> = files.iter().map(|f| format!("{:?}", f.1)).collect();
    assert_eq!(before, after);
}
