use fatescroll::models::{ResultEntry, Table};
use fatescroll::registry::Registry;
use fatescroll::display::{format_search_results, format_tag_list};
use fatescroll::search::{collect_tags, search, search_by_name, search_by_namespace, search_by_tag, sort_by_fqid};

fn table(id: &str, name: &str, tags: &[&str], text: &str) -> Table {
    Table::Simple {
        id: id.into(),
        name: name.into(),
        tags: tags.iter().map(|t| t.to_string()).collect(),
        notes: vec![],
        roll: "1d6".into(),
        modifier_range: None,
        results: vec![ResultEntry {
            min: 1,
            max: 6,
            text: Some(text.into()),
            chain: None,
            bindings: vec![],
        }],
    }
}

fn build_search_registry() -> Registry {
    let mut reg = Registry::new();
    reg.register("dmg.treasure.gems".into(), table("gems", "Gem Type", &["treasure", "gems"], "Ruby"))
        .unwrap();
    reg.register(
        "dmg.encounters.wilderness".into(),
        table("wilderness", "Wilderness Encounter", &["encounter", "wilderness"], "Wolves"),
    )
    .unwrap();
    reg.register("core.npc.occupation".into(), table("occupation", "NPC Occupation", &["npc"], "Smith"))
        .unwrap();
    reg
}

#[test]
fn search_search_by_name_substring() {
    let reg = build_search_registry();
    let results = search_by_name(&reg, "wilderness");
    assert_eq!(results.len(), 1);
    assert_eq!(results[0].0, "dmg.encounters.wilderness");
}

#[test]
fn search_search_by_name_case_insensitive() {
    let reg = build_search_registry();
    let results = search_by_name(&reg, "GEM");
    assert_eq!(results.len(), 1);
}

#[test]
fn search_search_by_tag_exact_match() {
    let reg = build_search_registry();
    let results = search_by_tag(&reg, "npc");
    assert_eq!(results.len(), 1);
    assert_eq!(results[0].0, "core.npc.occupation");
}

#[test]
fn search_search_by_namespace_prefix() {
    let reg = build_search_registry();
    let results = search_by_namespace(&reg, "dmg");
    assert_eq!(results.len(), 2);
}

#[test]
fn search_search_by_tag_is_case_sensitive() {
    let reg = build_search_registry();
    assert!(search_by_tag(&reg, "NPC").is_empty());
}

#[test]
fn search_search_by_namespace_with_trailing_dot() {
    let reg = build_search_registry();
    let results = search_by_namespace(&reg, "dmg.");
    assert_eq!(results.len(), 2);
}

#[test]
fn search_search_no_results() {
    let reg = build_search_registry();
    assert!(search_by_name(&reg, "nonexistent").is_empty());
    assert!(search_by_tag(&reg, "nonexistent").is_empty());
    assert!(search_by_namespace(&reg, "nonexistent").is_empty());
}

#[test]
fn collect_tags_empty_registry() {
    let reg = Registry::new();
    let tags = collect_tags(&reg);
    assert!(tags.is_empty());
}

#[test]
fn collect_tags_returns_sorted_unique_tags() {
    let reg = build_search_registry();
    let tags = collect_tags(&reg);
    assert_eq!(
        tags.iter().copied().collect::<Vec<_>>(),
        vec!["encounter", "gems", "npc", "treasure", "wilderness"]
    );
}

fn make_simple_table(id: &str) -> Table {
    table(id, id, &["zzz-tag"], "result")
}

#[test]
fn search_results_are_sorted_by_fqid() {
    let mut reg = Registry::new();
    reg.register("zzz.echo".into(), make_simple_table("echo")).unwrap();
    reg.register("zzz.alpha".into(), make_simple_table("alpha")).unwrap();
    reg.register("zzz.delta".into(), make_simple_table("delta")).unwrap();
    reg.register("zzz.bravo".into(), make_simple_table("bravo")).unwrap();
    reg.register("zzz.charlie".into(), make_simple_table("charlie")).unwrap();

    let expected = vec!["zzz.alpha", "zzz.bravo", "zzz.charlie", "zzz.delta", "zzz.echo"];

    let by_ns: Vec<&str> = search_by_namespace(&reg, "zzz").iter().map(|(fqid, _)| *fqid).collect();
    assert_eq!(by_ns, expected, "search_by_namespace must be sorted by FQID");

    let by_name: Vec<&str> = search_by_name(&reg, "").iter().map(|(fqid, _)| *fqid).collect();
    assert_eq!(by_name, expected, "search_by_name must be sorted by FQID");

    let by_tag: Vec<&str> = search_by_tag(&reg, "zzz-tag").iter().map(|(fqid, _)| *fqid).collect();
    assert_eq!(by_tag, expected, "search_by_tag must be sorted by FQID");
}

#[test]
fn search_by_namespace_needs_whole_segment() {
    let mut reg = Registry::new();
    reg.register("dmgx.a".into(), make_simple_table("a")).unwrap();
    reg.register("dmg.b".into(), make_simple_table("b")).unwrap();
    let results = search_by_namespace(&reg, "dmg");
    assert_eq!(results.len(), 1);
    assert_eq!(results[0].0, "dmg.b");
}

#[test]
fn sort_by_fqid_orders_ascending_and_keeps_all() {
    let a = make_simple_table("a");
    let b = make_simple_table("b");
    let c = make_simple_table("c");
    let sorted = sort_by_fqid(vec![("x.c", &c), ("x.a", &a), ("x.b", &b)]);
    let ids: Vec<&str> = sorted.iter().map(|p| p.0).collect();
    assert_eq!(ids, vec!["x.a", "x.b", "x.c"]);
    assert_eq!(sorted[0].1.id(), "a");
}

#[test]
fn search_by_name_lowercases_unicode_query() {
    let mut reg = Registry::new();
    reg.register("x.cafe".into(), table("cafe", "ÉCOLE Café", &[], "t")).unwrap();
    assert_eq!(search_by_name(&reg, "école").len(), 1);
    assert_eq!(search_by_name(&reg, "CAFÉ").len(), 1);
}

#[test]
fn collect_tags_removes_duplicates_across_tables() {
    let mut reg = Registry::new();
    reg.register("x.a".into(), table("a", "A", &["b", "a"], "t")).unwrap();
    reg.register("x.b".into(), table("b", "B", &["a", "c"], "t")).unwrap();
    assert_eq!(collect_tags(&reg), vec!["a", "b", "c"]);
}

#[test]
fn search_picks_name_then_tag_then_namespace() {
    let reg = build_search_registry();
    let by_name = search(&reg, Some("gem"), Some("npc"), Some("core")).unwrap();
    assert_eq!(by_name.iter().map(|(id, _)| *id).collect::<Vec<_>>(), vec!["dmg.treasure.gems"]);
    let by_tag = search(&reg, None, Some("npc"), Some("dmg")).unwrap();
    assert_eq!(by_tag.iter().map(|(id, _)| *id).collect::<Vec<_>>(), vec!["core.npc.occupation"]);
    let by_namespace = search(&reg, None, None, Some("dmg")).unwrap();
    assert_eq!(
        by_namespace.iter().map(|(id, _)| *id).collect::<Vec<_>>(),
        vec!["dmg.encounters.wilderness", "dmg.treasure.gems"]
    );
    assert!(search(&reg, None, None, None).is_none());
}

#[test]
fn search_listing_lines_and_empty_notes() {
    let reg = build_search_registry();
    let hits = search_by_tag(&reg, "encounter");
    assert_eq!(format_search_results(&hits), "  dmg.encounters.wilderness — Wilderness Encounter [encounter, wilderness]\n");
    let untagged = Table::Compound {
        id: "quick".into(),
        name: "Quick".into(),
        tags: vec![],
        notes: vec![],
        tables: vec![],
    };
    let hits: Vec<(&str, &Table)> = vec![("t.quick", &untagged)];
    assert_eq!(format_search_results(&hits), "  t.quick — Quick\n");
    assert_eq!(format_search_results(&vec![]), "No tables found.\n");
    assert_eq!(format_tag_list(&collect_tags(&reg)), "encounter\ngems\nnpc\ntreasure\nwilderness\n");
    assert_eq!(format_tag_list(&vec![]), "No tags found.\n");
}
