use image_prompt_generator::config::ConfigStore;
use image_prompt_generator::doc::{DocEntry, DocValue};
use image_prompt_generator::renderer::{render_prompt, RenderEntry};
use image_prompt_generator::ui::{build_ui_snapshot, split_item_id, CopyState};

#[test]
fn render_uses_confirmed_free_text() {
    let out = render_prompt(&vec![
        RenderEntry {
            label: "被写体".to_string(),
            selected: "ロボット".to_string(),
            free_text: "青いロボット".to_string(),
        },
        RenderEntry {
            label: "向き".to_string(),
            selected: "指定なし".to_string(),
            free_text: "".to_string(),
        },
    ]);
    assert_eq!(out, "[被写体]：青いロボット");
}

#[test]
fn render_joins_lines_and_skips_empty_values() {
    let out = render_prompt(&vec![
        RenderEntry { label: "a".to_string(), selected: "x".to_string(), free_text: "".to_string() },
        RenderEntry { label: "b".to_string(), selected: " ".to_string(), free_text: "".to_string() },
        RenderEntry { label: "c".to_string(), selected: "y".to_string(), free_text: "".to_string() },
    ]);
    assert_eq!(out, "[a]：x\n[c]：y");
}

#[test]
fn split_item_id_trims_both_parts() {
    let (section, key) = split_item_id(" prompt : subject ").expect("split");
    assert_eq!(section, "prompt");
    assert_eq!(key, "subject");
    assert!(split_item_id("no-colon").is_none());
    assert!(split_item_id(" : key").is_none());
    assert!(split_item_id("section: ").is_none());
}

#[test]
fn copy_debounce_skips_rapid_identical_prompts() {
    let mut st = CopyState::new();
    assert!(!st.decide_copy("hello", 1000, 2000), "first copy goes through");
    assert!(st.decide_copy("hello", 2500, 2000), "identical prompt inside the window skips");
    assert!(!st.decide_copy("other", 2600, 2000), "a different prompt goes through");
    assert!(!st.decide_copy("other", 99999, 2000), "outside the window goes through");
}

fn entry(key: &str, val: DocValue) -> DocEntry {
    DocEntry { key: key.to_string(), val }
}

fn text(v: &str) -> DocValue {
    DocValue::Text(v.to_string())
}

/// One section `prompt` with one item `key = "subject"` and the choices
/// robot and cat.
fn scenario_config() -> ConfigStore {
    ConfigStore::new(DocValue::Table(vec![entry(
        "sections",
        DocValue::List(vec![DocValue::Table(vec![
            entry("name", text("prompt")),
            entry(
                "items",
                DocValue::List(vec![DocValue::Table(vec![
                    entry("key", text("subject")),
                    entry(
                        "choices",
                        DocValue::List(vec![text("robot"), text("cat")]),
                    ),
                ])]),
            ),
        ])]),
    )]))
}

#[test]
fn selection_and_free_text_drive_the_preview() {
    let mut config = scenario_config();
    // select the robot choice
    config.set_item_state("prompt", "subject", "robot", "");
    let snap = build_ui_snapshot(&config, "prompt");
    assert_eq!(snap.preview, "[subject]：robot");
    assert_eq!(snap.rows.len(), 1);
    assert_eq!(snap.rows[0].selected, "robot");

    // confirm free text: the add-choice and state updates the service does
    config.add_choice("prompt", "subject", "blue robot").expect("add free text");
    config.set_item_state("prompt", "subject", "blue robot", "blue robot");
    let snap2 = build_ui_snapshot(&config, "prompt");
    assert_eq!(snap2.preview, "[subject]：blue robot");

    // clearing the section state resets the preview
    config.clear_section_state("prompt");
    let snap3 = build_ui_snapshot(&config, "prompt");
    assert_eq!(snap3.preview, "");
    assert_eq!(snap3.rows[0].selected, "指定なし");
}

#[test]
fn main_page_is_embedded() {
    let page = image_prompt_generator::main_ui_html::build_main_ui_html();
    assert!(page.contains("<!doctype html>"));
    assert!(page.contains("Image Prompt Generator"));
}

#[test]
fn confirm_free_text_adds_and_selects_the_value() {
    let mut config = scenario_config();
    let r = image_prompt_generator::ui::confirm_free_text(
        &mut config,
        "prompt",
        "subject",
        "",
        "  blue robot  ",
    );
    assert!(r.is_ok());
    let items = config.get_items("prompt");
    assert_eq!(items[0].choices, vec!["指定なし", "robot", "cat", "blue robot"]);
    let (selected, free) = config.get_item_state("prompt", "subject");
    assert_eq!(selected, "blue robot");
    assert_eq!(free, "blue robot");

    // confirming the same value again adds no duplicate
    let r2 = image_prompt_generator::ui::confirm_free_text(
        &mut config,
        "prompt",
        "subject",
        "",
        "blue robot",
    );
    assert!(r2.is_ok());
    let items2 = config.get_items("prompt");
    assert_eq!(items2[0].choices, vec!["指定なし", "robot", "cat", "blue robot"]);
}

#[test]
fn confirm_free_text_blank_value_resolves_the_selection() {
    let mut config = scenario_config();
    config.set_item_state("prompt", "subject", "robot", "old text");

    // a blank value keeps a selection that is one of the choices
    let r = image_prompt_generator::ui::confirm_free_text(&mut config, "prompt", "subject", "cat", "");
    assert!(r.is_ok());
    let (selected, free) = config.get_item_state("prompt", "subject");
    assert_eq!(selected, "cat");
    assert_eq!(free, "");

    // a blank value with an unknown selection falls back to the sentinel
    let r2 = image_prompt_generator::ui::confirm_free_text(
        &mut config,
        "prompt",
        "subject",
        "dragon",
        "指定なし",
    );
    assert!(r2.is_ok());
    let (selected2, free2) = config.get_item_state("prompt", "subject");
    assert_eq!(selected2, "指定なし");
    assert_eq!(free2, "");
}

#[test]
fn confirm_free_text_unknown_item_is_an_error() {
    let mut config = scenario_config();
    let r = image_prompt_generator::ui::confirm_free_text(&mut config, "prompt", "mood", "", "calm");
    assert!(r.is_err());
    let items = config.get_items("prompt");
    assert_eq!(items[0].choices, vec!["指定なし", "robot", "cat"]);
}

#[test]
fn delete_choice_resets_the_selection_state() {
    let mut config = scenario_config();
    config.set_item_state("prompt", "subject", "cat", "cat");
    let r = image_prompt_generator::ui::delete_choice(&mut config, "prompt", "subject", "cat");
    assert_eq!(r.expect("delete"), true);
    let items = config.get_items("prompt");
    assert_eq!(items[0].choices, vec!["指定なし", "robot"]);
    let (selected, free) = config.get_item_state("prompt", "subject");
    assert_eq!(selected, "指定なし");
    assert_eq!(free, "", "the free text equal to the removed value is cleared");

    // a free text different from the removed value survives
    let mut config2 = scenario_config();
    config2.set_item_state("prompt", "subject", "cat", "blue cat");
    let r2 = image_prompt_generator::ui::delete_choice(&mut config2, "prompt", "subject", "cat");
    assert_eq!(r2.expect("delete"), true);
    let (_, free2) = config2.get_item_state("prompt", "subject");
    assert_eq!(free2, "blue cat");
}

#[test]
fn delete_choice_ignores_blank_sentinel_and_absent_values() {
    let mut config = scenario_config();
    assert_eq!(image_prompt_generator::ui::delete_choice(&mut config, "prompt", "subject", "  ").expect("blank"), false);
    assert_eq!(
        image_prompt_generator::ui::delete_choice(&mut config, "prompt", "subject", "指定なし").expect("sentinel"),
        false
    );
    assert_eq!(
        image_prompt_generator::ui::delete_choice(&mut config, "prompt", "subject", "dragon").expect("absent"),
        false
    );
    let items = config.get_items("prompt");
    assert_eq!(items[0].choices, vec!["指定なし", "robot", "cat"]);
    assert!(image_prompt_generator::ui::delete_choice(&mut config, "prompt", "mood", "robot").is_err());
}

#[test]
fn copy_request_skips_a_blank_prompt_without_recording() {
    let mut st = CopyState::new();
    assert!(st.decide_copy_request("   ", 1000, 2000), "a blank prompt is skipped");
    // the skipped blank prompt left no trace: the next prompt goes through
    assert!(!st.decide_copy_request("  hello ", 1001, 2000), "first real copy goes through");
    assert!(st.decide_copy_request("hello", 2500, 2000), "identical trimmed prompt inside the window skips");
    assert!(!st.decide_copy_request("hello", 99999, 2000), "outside the window goes through");
}
