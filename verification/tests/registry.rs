use fatescroll::models::{ResultEntry, Table};
use fatescroll::registry::Registry;

fn simple_table(name: &str) -> Table {
    Table::Simple {
        id: name.to_lowercase().replace(' ', "-"),
        name: name.to_string(),
        tags: vec!["test".to_string()],
        notes: vec![],
        roll: "1d6".to_string(),
        modifier_range: None,
        results: vec![ResultEntry {
            min: 1,
            max: 6,
            text: Some("X".into()),
            chain: None,
            bindings: vec![],
        }],
    }
}

fn named_empty_table(id: &str, name: &str) -> Table {
    Table::Simple {
        id: id.into(),
        name: name.into(),
        tags: vec![],
        notes: vec![],
        roll: "1d4".into(),
        modifier_range: None,
        results: vec![],
    }
}

#[test]
fn registry_register_and_get() {
    let mut reg = Registry::new();
    reg.register("test.foo".into(), simple_table("Foo")).unwrap();
    assert!(reg.get("test.foo").is_some());
    assert!(reg.get("test.bar").is_none());
}

#[test]
fn registry_duplicate_registration_fails() {
    let mut reg = Registry::new();
    reg.register("test.foo".into(), simple_table("Foo")).unwrap();
    let err = reg.register("test.foo".into(), simple_table("Foo2"));
    assert!(err.is_err());
}

#[test]
fn registry_resolve_relative_first() {
    let mut reg = Registry::new();
    reg.register("ns.sub.target".into(), simple_table("Local")).unwrap();
    reg.register("target".into(), simple_table("Global")).unwrap();
    let (fqid, table) = reg.resolve("target", "ns.sub").unwrap();
    assert_eq!(fqid, "ns.sub.target");
    assert_eq!(table.name(), "Local");
}

#[test]
fn registry_resolve_falls_back_to_fqid() {
    let mut reg = Registry::new();
    reg.register("other.target".into(), simple_table("Other")).unwrap();
    let (fqid, table) = reg.resolve("other.target", "ns.sub").unwrap();
    assert_eq!(fqid, "other.target");
    assert_eq!(table.name(), "Other");
}

#[test]
fn registry_resolve_not_found() {
    let reg = Registry::new();
    assert!(reg.resolve("nonexistent", "ns").is_none());
}

#[test]
fn resolve_cross_namespace_by_bare_id() {
    let mut reg = Registry::new();
    reg.register("test.encounters.wolf-count".into(), named_empty_table("wolf-count", "Wolf Count"))
        .unwrap();
    let result = reg.resolve("wolf-count", "test.npc");
    assert!(result.is_some(), "bare id should resolve across namespaces");
    let (fqid, _) = result.unwrap();
    assert_eq!(fqid, "test.encounters.wolf-count");
}

#[test]
fn resolve_ambiguous_bare_id_returns_none() {
    let mut reg = Registry::new();
    reg.register("test.encounters.wolf-count".into(), named_empty_table("wolf-count", "Wolf Count 1"))
        .unwrap();
    reg.register("test.npc.wolf-count".into(), named_empty_table("wolf-count", "Wolf Count 2"))
        .unwrap();
    let result = reg.resolve("wolf-count", "test.terrain");
    assert!(result.is_none(), "ambiguous bare id should return None");
}

#[test]
fn resolve_relative_takes_priority_over_global() {
    let mut reg = Registry::new();
    reg.register("test.encounters.wolf-count".into(), named_empty_table("wolf-count", "Local Wolf Count"))
        .unwrap();
    reg.register("test.npc.wolf-count".into(), named_empty_table("wolf-count", "Remote Wolf Count"))
        .unwrap();
    let result = reg.resolve("wolf-count", "test.encounters");
    assert!(result.is_some());
    let (fqid, table) = result.unwrap();
    assert_eq!(fqid, "test.encounters.wolf-count");
    assert_eq!(table.name(), "Local Wolf Count");
}

#[test]
fn registry_all_tables_iterates_everything() {
    let mut reg = Registry::new();
    reg.register("a.one".into(), simple_table("One")).unwrap();
    reg.register("b.two".into(), simple_table("Two")).unwrap();
    assert_eq!(reg.all_tables().len(), 2);
}

#[test]
fn registry_keeps_registration_order_and_table() {
    let mut reg = Registry::new();
    reg.register("b.two".into(), simple_table("Two")).unwrap();
    reg.register("a.one".into(), simple_table("One")).unwrap();
    let all = reg.all_tables();
    assert_eq!(all[0].0, "b.two");
    assert_eq!(all[1].0, "a.one");
    assert_eq!(all[1].1.name(), "One");
    assert_eq!(reg.get("b.two").unwrap().name(), "Two");
}

#[test]
fn registry_duplicate_leaves_first_table() {
    let mut reg = Registry::new();
    reg.register("test.foo".into(), simple_table("Foo")).unwrap();
    let err = reg.register("test.foo".into(), simple_table("Foo2")).unwrap_err();
    assert_eq!(
        err,
        fatescroll::error::ValidationError::DuplicateId { id: "test.foo".into() }
    );
    assert_eq!(reg.get("test.foo").unwrap().name(), "Foo");
    assert_eq!(reg.all_tables().len(), 1);
}

#[test]
fn resolve_suffix_needs_whole_segment() {
    let mut reg = Registry::new();
    reg.register("x.big-wolf".into(), simple_table("Big")).unwrap();
    assert!(reg.resolve("wolf", "y").is_none());
}

#[test]
fn registry_default_is_empty() {
    let reg = Registry::default();
    assert!(reg.get("any.table").is_none());
    assert!(reg.all_tables().is_empty());
}
