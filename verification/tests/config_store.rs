use image_prompt_generator::config::{ConfigStore, ItemConfig};
use image_prompt_generator::doc::{DocEntry, DocValue};

fn entry(key: &str, val: DocValue) -> DocEntry {
    DocEntry { key: key.to_string(), val }
}

fn text(v: &str) -> DocValue {
    DocValue::Text(v.to_string())
}

fn choices_list(vals: &[&str]) -> DocValue {
    DocValue::List(vals.iter().map(|v| text(v)).collect())
}

/// The document the first fixture parses into: a settings block with a
/// negative debounce, one section `prompt` with one item `subject`.
fn normalize_fixture() -> DocValue {
    DocValue::Table(vec![
        entry("app", DocValue::Table(vec![entry("copy_debounce_sec", DocValue::Int(-1))])),
        entry(
            "sections",
            DocValue::List(vec![DocValue::Table(vec![
                entry("name", text("prompt")),
                entry(
                    "items",
                    DocValue::List(vec![DocValue::Table(vec![
                        entry("key", text("subject")),
                        entry("choices", choices_list(&["robot", "", "指定なし", "robot", "cat"])),
                    ])]),
                ),
            ])]),
        ),
    ])
}

fn choice_strings(items: &[ItemConfig]) -> Vec<String> {
    items[0].choices.clone()
}

#[test]
fn normalizes_and_persists_choices() {
    let mut store = ConfigStore::new(normalize_fixture());
    let items = store.get_items("prompt");
    assert_eq!(items.len(), 1);
    assert_eq!(items[0].choices[0], "指定なし");
    assert_eq!(items[0].choices[1], "robot");
    assert_eq!(items[0].choices[2], "cat");

    let added = store.add_choice("prompt", "subject", "wolf").expect("add choice");
    assert!(added);

    let removed = store.remove_choice("prompt", "subject", "cat").expect("remove choice");
    assert!(removed);

    let items2 = store.get_items("prompt");
    assert_eq!(choice_strings(&items2), vec!["指定なし", "robot", "wolf"]);
}

#[test]
fn keeps_app_table_before_sections_after_save() {
    // the serialized form the reorder pass runs over, sections first
    let serialized = "[[sections]]\nname = \"prompt\"\n\n  [[sections.items]]\n  key = \"subject\"\n\n[app]\nhistory_server_port = 3000\n";
    let moved = image_prompt_generator::config::move_app_table_to_top(serialized);
    let app_pos = moved.find("[app]").expect("app exists");
    let sections_pos = moved.find("[[sections]]").expect("sections exists");
    assert!(app_pos < sections_pos, "[app] should be before [[sections]] after save");
}

#[test]
fn settings_default_and_clamp() {
    let store = ConfigStore::new(normalize_fixture());
    // the negative debounce falls back to the two-second default
    assert_eq!(store.copy_debounce_millis(), 2000);
    assert_eq!(store.history_server_port(), 3000);
    assert_eq!(store.history_max_entries(), 300);
    assert_eq!(store.delimiter(), ", ");
    assert!(store.confirm_delete());
    assert!(store.history_confirm_delete());
}

fn doc_eq(a: &DocValue, b: &DocValue) -> bool {
    match (a, b) {
        (DocValue::Text(x), DocValue::Text(y)) => x == y,
        (DocValue::Int(x), DocValue::Int(y)) => x == y,
        (DocValue::Milli(x), DocValue::Milli(y)) => x == y,
        (DocValue::Flag(x), DocValue::Flag(y)) => x == y,
        (DocValue::List(x), DocValue::List(y)) => {
            x.len() == y.len() && x.iter().zip(y.iter()).all(|(u, v)| doc_eq(u, v))
        }
        (DocValue::Table(x), DocValue::Table(y)) => {
            x.len() == y.len()
                && x.iter().zip(y.iter()).all(|(u, v)| u.key == v.key && doc_eq(&u.val, &v.val))
        }
        _ => false,
    }
}

fn clone_doc(v: &DocValue) -> DocValue {
    match v {
        DocValue::Text(x) => DocValue::Text(x.clone()),
        DocValue::Int(x) => DocValue::Int(*x),
        DocValue::Milli(x) => DocValue::Milli(*x),
        DocValue::Flag(x) => DocValue::Flag(*x),
        DocValue::List(x) => DocValue::List(x.iter().map(clone_doc).collect()),
        DocValue::Table(x) => DocValue::Table(
            x.iter().map(|e| DocEntry { key: e.key.clone(), val: clone_doc(&e.val) }).collect(),
        ),
    }
}

#[test]
fn loading_twice_reproduces_the_document() {
    let store1 = ConfigStore::new(normalize_fixture());
    let once = clone_doc(store1.document());
    let store2 = ConfigStore::new(once);
    assert!(doc_eq(store1.document(), store2.document()));
}

#[test]
fn choices_always_head_with_sentinel() {
    // a thoroughly malformed list: blanks, repeats, stray sentinels
    let doc = DocValue::Table(vec![entry(
        "sections",
        DocValue::List(vec![DocValue::Table(vec![
            entry("name", text("prompt")),
            entry(
                "items",
                DocValue::List(vec![DocValue::Table(vec![
                    entry("key", text("k")),
                    entry(
                        "choices",
                        choices_list(&["  ", "a", "指定なし", "a", " b ", "b", "指定なし", ""]),
                    ),
                ])]),
            ),
        ])]),
    )]);
    let store = ConfigStore::new(doc);
    let items = store.get_items("prompt");
    let ch = &items[0].choices;
    assert_eq!(ch[0], "指定なし");
    assert_eq!(ch[1..], ["a".to_string(), "b".to_string()]);
    for (i, a) in ch.iter().enumerate() {
        assert!(!a.trim().is_empty());
        for b in ch.iter().skip(i + 1) {
            assert_ne!(a, b);
        }
    }
}

#[test]
fn add_choice_rejects_blank_sentinel_and_unknown_items() {
    let mut store = ConfigStore::new(normalize_fixture());
    assert_eq!(store.add_choice("prompt", "subject", "   ").expect("blank"), false);
    assert_eq!(store.add_choice("prompt", "subject", "指定なし").expect("sentinel"), false);
    assert_eq!(store.add_choice("prompt", "subject", "robot").expect("present"), false);
    let err = store.add_choice("prompt", "missing", "x").expect_err("unknown item");
    assert_eq!(err.message(), "item not found");
}

#[test]
fn item_state_round_trip_and_reset() {
    let mut store = ConfigStore::new(normalize_fixture());
    store.set_item_state("prompt", "subject", "  robot ", "  blue robot ");
    let (selected, free_text) = store.get_item_state("prompt", "subject");
    assert_eq!(selected, "robot");
    assert_eq!(free_text, "blue robot");
    store.clear_section_state("prompt");
    let (selected2, free_text2) = store.get_item_state("prompt", "subject");
    assert_eq!(selected2, "指定なし");
    assert_eq!(free_text2, "");
}

#[test]
fn numeric_settings_read_from_any_shape() {
    let doc = DocValue::Table(vec![entry(
        "app",
        DocValue::Table(vec![
            entry("copy_debounce_sec", text("2.5")),
            entry("history_server_port", text("8080")),
            entry("history_max_entries", DocValue::Milli(7999)),
        ]),
    )]);
    let store = ConfigStore::new(doc);
    // decimal text is read in thousandths, truncated past three digits
    assert_eq!(store.copy_debounce_millis(), 2500);
    assert_eq!(store.history_server_port(), 8080);
    // a non-integer count truncates toward zero
    assert_eq!(store.history_max_entries(), 7);
}

#[test]
fn out_of_range_port_falls_back() {
    let doc = DocValue::Table(vec![entry(
        "app",
        DocValue::Table(vec![entry("history_server_port", DocValue::Int(700000))]),
    )]);
    let store = ConfigStore::new(doc);
    assert_eq!(store.history_server_port(), 3000);
}
