use fatescroll::display::format_table;
use fatescroll::models::{ChainRef, ModifierRange, ResultBinding, ResultEntry, Table};

fn entry(min: i32, max: i32, text: &str, chain: Option<Vec<ChainRef>>) -> ResultEntry {
    ResultEntry { min, max, text: Some(text.into()), chain, bindings: vec![] }
}

fn simple(id: &str, name: &str, roll: &str, notes: Vec<String>, modifier_range: Option<ModifierRange>, results: Vec<ResultEntry>) -> Table {
    Table::Simple {
        id: id.into(),
        name: name.into(),
        tags: vec![],
        notes,
        roll: roll.into(),
        modifier_range,
        results,
    }
}

fn simple_table() -> Table {
    Table::Simple {
        id: "wilderness-encounter".into(),
        name: "Wilderness Encounter".into(),
        tags: vec!["encounter".into(), "wilderness".into()],
        notes: vec![],
        roll: "1d8".into(),
        modifier_range: None,
        results: vec![
            entry(1, 3, "Animal encounter", Some(vec![ChainRef::Simple("animal-type".into())])),
            entry(
                4,
                5,
                "Bandit camp",
                Some(vec![
                    ChainRef::Simple("bandit-strength".into()),
                    ChainRef::Simple("bandit-motivation".into()),
                ]),
            ),
            entry(6, 7, "Abandoned campsite", None),
            entry(8, 8, "Merchant", Some(vec![ChainRef::Simple("merchant-goods".into())])),
        ],
    }
}

fn compound_table() -> Table {
    Table::Compound {
        id: "quick-npc".into(),
        name: "Quick NPC Generator".into(),
        tags: vec!["npc".into(), "generator".into()],
        notes: vec![],
        tables: vec!["npc-occupation".into(), "npc-disposition".into(), "npc-quirk".into()],
    }
}

#[test]
fn display_format_simple_table_output() {
    let table = simple_table();
    let output = format_table("test.encounters.wilderness-encounter", &table, false);
    assert!(output.contains("Wilderness Encounter (test.encounters.wilderness-encounter)"));
    assert!(output.contains("Tags: encounter, wilderness"));
    assert!(output.contains("Roll: 1d8"));
    assert!(!output.contains("8-8"));
    assert!(output.contains("→ animal-type"));
    assert!(output.contains("→ bandit-strength, bandit-motivation"));
    assert!(output.contains("1-3"));
}

#[test]
fn display_format_compound_table_output() {
    let table = compound_table();
    let output = format_table("test.npc.quick-npc", &table, false);
    assert!(output.contains("Quick NPC Generator (test.npc.quick-npc)"));
    assert!(output.contains("Tags: npc, generator"));
    assert!(output.contains("Tables:"));
    assert!(output.contains("  - npc-occupation"));
    assert!(output.contains("  - npc-disposition"));
    assert!(output.contains("  - npc-quirk"));
}

#[test]
fn format_table_with_reroll_chain() {
    let table = simple(
        "mishap",
        "Wizard Mishap",
        "1d4",
        vec![],
        None,
        vec![
            entry(
                1,
                1,
                "Roll twice and combine",
                Some(vec![
                    ChainRef::Modified { table: "mishap".into(), reroll: vec![1] },
                    ChainRef::Modified { table: "mishap".into(), reroll: vec![1] },
                ]),
            ),
            entry(2, 4, "Normal", None),
        ],
    );
    let output = format_table("ns.mishap", &table, false);
    assert!(output.contains("mishap"));
    assert!(output.contains("reroll"));
}

#[test]
fn display_format_table_no_tags() {
    let table = simple("minimal", "Minimal", "1d4", vec![], None, vec![entry(1, 4, "Something", None)]);
    let output = format_table("test.minimal", &table, false);
    assert!(output.contains("Minimal (test.minimal)"));
    assert!(!output.contains("Tags:"));
}

#[test]
fn format_table_shows_modifier_range() {
    let table = simple(
        "carousing",
        "Carousing",
        "1d8",
        vec![],
        Some(ModifierRange { min: 0, max: 6 }),
        (1..=14).map(|v| entry(v, v, "E", None)).collect(),
    );
    let output = format_table("ns.carousing", &table, false);
    assert!(output.contains("Modifier: 0 to 6"));
}

#[test]
fn format_table_without_modifier_range_omits_line() {
    let table = simple("plain", "Plain", "1d6", vec![], None, vec![entry(1, 6, "X", None)]);
    let output = format_table("ns.plain", &table, false);
    assert!(!output.contains("Modifier:"));
}

#[test]
fn format_table_with_negative_entries_aligns() {
    let table = simple(
        "aging",
        "Aging",
        "1d6",
        vec![],
        None,
        vec![entry(-2, -1, "Decline", None), entry(0, 6, "Stable", None)],
    );
    let output = format_table("ns.aging", &table, false);
    assert!(output.contains("-2--1"));
    assert!(output.contains("Decline"));
    assert!(output.contains("Stable"));
}

#[test]
fn format_table_shows_notes_when_requested() {
    let table = simple(
        "boarding",
        "Boarding",
        "2d6",
        vec!["Attacker rolls 2d6 minus defender 2d6".into(), "DMs: +2 boarding equipment".into()],
        None,
        vec![entry(1, 12, "Outcome", None)],
    );
    let output = format_table("ns.boarding", &table, true);
    assert!(output.contains("Notes:"));
    assert!(output.contains("- Attacker rolls 2d6 minus defender 2d6"));
    assert!(output.contains("- DMs: +2 boarding equipment"));
    assert!(output.find("Notes:").unwrap() < output.find("Outcome").unwrap());
}

#[test]
fn format_table_hides_notes_by_default() {
    let table = simple(
        "boarding",
        "Boarding",
        "2d6",
        vec!["Attacker rolls 2d6 minus defender 2d6".into()],
        None,
        vec![entry(1, 12, "Outcome", None)],
    );
    let output = format_table("ns.boarding", &table, false);
    assert!(!output.contains("Notes:"));
    assert!(!output.contains("Attacker rolls"));
}

#[test]
fn format_table_without_notes_omits_block_even_when_requested() {
    let table = simple("plain", "Plain", "1d6", vec![], None, vec![entry(1, 6, "X", None)]);
    let output = format_table("ns.plain", &table, true);
    assert!(!output.contains("Notes:"));
}

fn npc_compound(notes: Vec<String>) -> Table {
    Table::Compound {
        id: "quick-npc".into(),
        name: "Quick NPC".into(),
        tags: vec![],
        notes,
        tables: vec!["npc-occupation".into(), "npc-disposition".into()],
    }
}

#[test]
fn format_compound_table_shows_notes_when_requested() {
    let table = npc_compound(vec!["Combine occupation and disposition into one line".into()]);
    let output = format_table("ns.quick-npc", &table, true);
    assert!(output.contains("Notes:"));
    assert!(output.contains("- Combine occupation and disposition into one line"));
    assert!(output.find("Notes:").unwrap() < output.find("Tables:").unwrap());
}

#[test]
fn format_compound_table_hides_notes_by_default() {
    let table = npc_compound(vec!["Combine occupation and disposition into one line".into()]);
    let output = format_table("ns.quick-npc", &table, false);
    assert!(!output.contains("Notes:"));
    assert!(!output.contains("Combine occupation"));
}

#[test]
fn format_compound_table_without_notes_omits_block_even_when_requested() {
    let table = npc_compound(vec![]);
    let output = format_table("ns.quick-npc", &table, true);
    assert!(!output.contains("Notes:"));
}

#[test]
fn range_width_uses_single_value_length_when_min_equals_max() {
    let table = simple("t", "T", "1d100", vec![], None, vec![entry(100, 100, "x", None)]);
    let output = format_table("ns.t", &table, false);
    let line = output.lines().find(|l| l.contains('x')).unwrap();
    assert_eq!(line, "  100  x");
}

#[test]
fn chain_arrow_is_omitted_for_an_empty_chain_vec() {
    let table = simple("t", "T", "1d4", vec![], None, vec![entry(1, 1, "x", Some(vec![]))]);
    let output = format_table("ns.t", &table, false);
    let line = output.lines().find(|l| l.contains('x')).unwrap();
    assert_eq!(line, "  1  x");
}

#[test]
fn format_table_shows_source_bindings_in_order_without_evaluation() {
    let table = Table::Simple {
        id: "gems".into(),
        name: "Gems".into(),
        tags: vec![],
        notes: vec![],
        roll: "1d6".into(),
        modifier_range: None,
        results: vec![ResultEntry {
            min: 1,
            max: 6,
            bindings: vec![
                ResultBinding { name: "count".into(), value: "roll(\"1d4\")".into() },
                ResultBinding { name: "price".into(), value: "count * 25".into() },
            ],
            text: Some("Found {= count} worth {= price}.".into()),
            chain: None,
        }],
    };
    let output = format_table("ns.gems", &table, false);
    assert!(output.contains("Found {= count} worth {= price}."), "got:\n{output}");
    let count_pos = output.find("let count").unwrap_or_else(|| panic!("no count binding in:\n{output}"));
    let price_pos = output.find("let price").unwrap_or_else(|| panic!("no price binding in:\n{output}"));
    assert!(count_pos < price_pos, "bindings out of order in:\n{output}");
    assert!(output.contains("roll(\"1d4\")"), "got:\n{output}");
    assert!(output.contains("count * 25"), "got:\n{output}");
}

#[test]
fn format_table_aligns_ranges_to_widest() {
    let table = simple(
        "t",
        "T",
        "1d20",
        vec![],
        None,
        vec![entry(1, 9, "low", None), entry(10, 20, "high", None)],
    );
    let output = format_table("ns.t", &table, false);
    assert!(output.lines().any(|l| l == "    1-9  low"), "got:\n{output}");
    assert!(output.lines().any(|l| l == "  10-20  high"), "got:\n{output}");
}

#[test]
fn format_table_entry_without_text_shows_only_range() {
    let table = simple(
        "t",
        "T",
        "1d4",
        vec![],
        None,
        vec![ResultEntry { min: 1, max: 4, text: None, chain: None, bindings: vec![] }],
    );
    let output = format_table("ns.t", &table, false);
    assert!(output.contains("1-4"), "got:\n{output}");
}

#[test]
fn display_chain_reference_text() {
    assert_eq!(ChainRef::Simple("animal-type".into()).to_text(), "animal-type");
    let plain = ChainRef::Modified { table: "mishap".into(), reroll: vec![] };
    assert_eq!(plain.to_text(), "mishap");
    let rerolled = ChainRef::Modified { table: "mishap".into(), reroll: vec![1, 2] };
    assert_eq!(rerolled.to_text(), "mishap (reroll [1, 2])");
}
