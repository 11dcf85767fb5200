use image_prompt_generator::clock::ClockTime;
use image_prompt_generator::history::{HistoryEntry, HistoryError, HistoryStore};

fn at(day: u8, hour: u8, minute: u8, second: u8) -> ClockTime {
    ClockTime { year: 2024, month: 5, day, hour, minute, second }
}

fn store(max: usize) -> HistoryStore {
    HistoryStore::new(String::new(), max)
}

fn active_ids(s: &HistoryStore) -> Vec<String> {
    s.active_ref().iter().map(|e| e.id.clone()).collect()
}

#[test]
fn append_and_rotate_entries() {
    let mut s = store(2);
    s.append_history("a", at(1, 10, 0, 0)).expect("append a");
    s.append_history("b", at(1, 10, 0, 1)).expect("append b");
    s.append_history("c", at(1, 10, 0, 2)).expect("append c");
    assert_eq!(s.active_ref().len(), 2);
}

#[test]
fn generated_ids_carry_time_and_sequence() {
    let mut s = store(10);
    let now = ClockTime { year: 2024, month: 1, day: 2, hour: 3, minute: 4, second: 5 };
    let e1 = s.append_history("one", now).expect("append one");
    assert_eq!(e1.id, "20240102_030405_0001");
    assert_eq!(e1.ts, "2024-01-02 03:04:05");
    let e2 = s.append_history("two", now).expect("append two");
    assert_eq!(e2.id, "20240102_030405_0002");
}

#[test]
fn rotation_moves_exactly_the_overflow() {
    // five appends against a cap of two: three entries end up archived,
    // the active log stays at the cap, and no id is lost
    let mut s = store(2);
    let mut all_ids = Vec::new();
    for k in 0..5u8 {
        let e = s.append_history("p", at(1, 12, 0, k)).expect("append");
        all_ids.push(e.id);
    }
    assert_eq!(s.active_ref().len(), 2);
    let mut seen: Vec<String> = active_ids(&s);
    let mut archived = 0;
    for a in s.archives_ref() {
        for e in a.entries.iter() {
            archived += 1;
            seen.push(e.id.clone());
        }
    }
    assert_eq!(archived, 3);
    seen.sort();
    all_ids.sort();
    assert_eq!(seen, all_ids);
}

#[test]
fn delete_history_removes_active_entry() {
    let mut s = store(5);
    let target = s.append_history("delete target", at(1, 9, 0, 0)).expect("append target");
    s.append_history("keep", at(1, 9, 0, 1)).expect("append keep");
    assert!(s.delete_history(&target.id), "active history should be deleted");
    assert!(
        active_ids(&s).iter().all(|id| id != &target.id),
        "deleted entry should not remain in active history"
    );
}

#[test]
fn delete_history_removes_archive_entry() {
    let mut s = store(1);
    let archived = s.append_history("archive delete target", at(2, 8, 0, 0)).expect("append archived");
    s.append_history("active latest", at(2, 8, 0, 1)).expect("append active");
    assert_eq!(s.archives_ref().len(), 1, "archive file should exist");
    assert!(s.delete_history(&archived.id), "archive history should be deleted");
    assert!(
        s.archives_ref()[0].entries.iter().all(|e| e.id != archived.id),
        "deleted entry should not remain in archive history"
    );
}

#[test]
fn delete_history_returns_false_for_missing_history_id() {
    let mut s = store(2);
    s.append_history("exists", at(3, 7, 0, 0)).expect("append");
    assert!(!s.delete_history("missing-id"), "missing id should not error");
}

#[test]
fn delete_history_is_idempotent() {
    let mut s = store(5);
    let e = s.append_history("only once", at(4, 6, 0, 0)).expect("append");
    assert!(s.delete_history(&e.id));
    assert!(!s.delete_history(&e.id));
}

#[test]
fn regenerate_html_includes_delete_button_in_archive_page() {
    let mut s = store(1);
    let archived = s.append_history("archive delete available", at(5, 5, 0, 0)).expect("append archived");
    s.append_history("active latest", at(5, 5, 0, 1)).expect("append active");
    let pages = s.regenerate_html(8765);
    let key: String = archived.id.chars().take(8).collect();
    let page = pages
        .iter()
        .find(|(path, _)| path.contains(&key))
        .expect("read archive html");
    assert!(
        page.1.contains("<button class=\"btn delete-btn\">削除</button>"),
        "archive html should include delete button markup"
    );
}

#[test]
fn update_history_prompt_updates_active_entry_and_keeps_ts_and_images() {
    let mut s = store(5);
    let entry = s.append_history("before", at(6, 4, 0, 0)).expect("append");
    s.append_image(&entry.id, "sample.png", b"dummy", at(6, 4, 0, 1)).expect("append image");
    let before = s.active_ref().iter().find(|e| e.id == entry.id).expect("before").clone();
    let ts_before = before.ts.clone();
    let images_before = before.images.clone();
    assert!(
        s.update_history_prompt(&entry.id, "after").expect("update active"),
        "active history should be updated"
    );
    let after = s.active_ref().iter().find(|e| e.id == entry.id).expect("after");
    assert_eq!(after.prompt, "after");
    assert_eq!(after.ts, ts_before);
    assert_eq!(after.images, images_before);
}

#[test]
fn update_history_prompt_updates_archive_entry() {
    let mut s = store(1);
    let archived = s.append_history("archive before", at(7, 3, 0, 0)).expect("append archived");
    s.append_history("active latest", at(7, 3, 0, 1)).expect("append active");
    assert_eq!(s.archives_ref().len(), 1, "archive file should exist");
    assert!(
        s.update_history_prompt(&archived.id, "archive after").expect("update archive"),
        "archive history should be updated"
    );
    let after = s.archives_ref()[0]
        .entries
        .iter()
        .find(|e| e.id == archived.id)
        .expect("archive prompt");
    assert_eq!(after.prompt, "archive after");
}

#[test]
fn update_history_prompt_rejects_empty_prompt() {
    let mut s = store(2);
    s.append_history("exists", at(8, 2, 0, 0)).expect("append");
    let err = s.update_history_prompt("dummy-id", "   ").expect_err("empty prompt should fail");
    assert!(err.message().contains("prompt is empty"));
}

#[test]
fn update_history_prompt_returns_false_for_missing_history_id() {
    let mut s = store(2);
    s.append_history("exists", at(9, 1, 0, 0)).expect("append");
    let updated = s.update_history_prompt("missing-id", "new prompt").expect("missing id should not error");
    assert!(!updated);
}

#[test]
fn append_image_checks_extension_size_and_id() {
    let mut s = store(5);
    let e = s.append_history("with image", at(10, 0, 0, 0)).expect("append");

    let big_ok = vec![0u8; 18 * 1024 * 1024];
    let p1 = s.append_image(&e.id, "photo.PNG", &big_ok, at(10, 0, 0, 1)).expect("18 MiB png");
    assert!(p1.ends_with(".png"));
    // the file name carries the entry id's date and time, the directory
    // tree the upload month
    assert_eq!(p1, "images/2024/05/20240510_000000_01.png");

    let too_big = vec![0u8; 21 * 1024 * 1024];
    let err = s.append_image(&e.id, "big.png", &too_big, at(10, 0, 0, 2)).expect_err("oversized");
    assert!(matches!(err, HistoryError::FileTooLarge));
    assert!(err.message().contains("file size exceeds 20MB"));

    let err2 = s.append_image(&e.id, "anim.gif", b"x", at(10, 0, 0, 3)).expect_err("bad extension");
    assert!(matches!(err2, HistoryError::UnsupportedExtension));

    let err3 = s.append_image("missing-id", "x.png", b"x", at(10, 0, 0, 4)).expect_err("unknown id");
    assert!(matches!(err3, HistoryError::IdNotFound));

    // a re-upload replaces the single tracked path
    let p2 = s.append_image(&e.id, "second.jpg", b"y", at(10, 0, 0, 5)).expect("replace");
    let entry = s.active_ref().iter().find(|x| x.id == e.id).expect("entry");
    assert_eq!(entry.images, vec![p2.clone()]);
    assert!(p2.ends_with(".jpg"));
}

#[test]
fn read_image_blob_rejects_traversal() {
    let s = store(2);
    assert!(matches!(s.read_image_blob("../secret.txt"), Err(HistoryError::InvalidImagePath)));
    assert!(matches!(s.read_image_blob("/etc/passwd"), Err(HistoryError::AbsoluteImagePath)));
    assert!(matches!(s.read_image_blob("other/file.png"), Err(HistoryError::ImagePathOutOfScope)));
    assert!(matches!(s.read_image_blob("   "), Err(HistoryError::EmptyImagePath)));
    assert!(matches!(s.read_image_blob("images/./x.png"), Err(HistoryError::InvalidImagePath)));
    assert_eq!(s.read_image_blob("images/2024/05/a.png").expect("in scope"), "image/png");
}

#[test]
fn image_content_type_by_extension() {
    assert_eq!(image_prompt_generator::history::image_content_type("a/b.PNG"), "image/png");
    assert_eq!(image_prompt_generator::history::image_content_type("a/b.jpeg"), "image/jpeg");
    assert_eq!(image_prompt_generator::history::image_content_type("a/b.jpg"), "image/jpeg");
    assert_eq!(image_prompt_generator::history::image_content_type("a/b.webp"), "image/webp");
    assert_eq!(
        image_prompt_generator::history::image_content_type("a/b.txt"),
        "application/octet-stream"
    );
}

#[test]
fn path_to_posix_joins_segments() {
    assert_eq!(image_prompt_generator::history::path_to_posix("a\\b/c"), "a/b/c");
    assert_eq!(image_prompt_generator::history::path_to_posix("a//b/"), "a/b");
}

#[test]
fn empty_prompt_is_rejected_on_append() {
    let mut s = store(2);
    let err = match s.append_history("   ", at(11, 0, 0, 0)) {
        Ok(_) => panic!("blank prompt"),
        Err(e) => e,
    };
    assert!(matches!(err, HistoryError::EmptyPrompt));
}

#[test]
fn loaded_entries_are_normalized() {
    let mut s = store(10);
    let raw = vec![
        HistoryEntry {
            id: " 20240101_000000_0001 ".to_string(),
            ts: " 2024-01-01 00:00:00 ".to_string(),
            prompt: "  hello  ".to_string(),
            images: vec!["  ".to_string(), "images/a.png".to_string(), "images/b.png".to_string()],
        },
        HistoryEntry {
            id: "".to_string(),
            ts: "x".to_string(),
            prompt: "dropped".to_string(),
            images: vec![],
        },
    ];
    s.load_active(raw);
    assert_eq!(s.active_ref().len(), 1);
    let e = &s.active_ref()[0];
    assert_eq!(e.id, "20240101_000000_0001");
    assert_eq!(e.prompt, "hello");
    // legacy multi-image lists collapse to the most recent path
    assert_eq!(e.images, vec!["images/b.png".to_string()]);
}

#[test]
fn escaped_prompt_text_lands_in_the_page() {
    let mut s = store(5);
    s.append_history("a <b> & c", at(12, 0, 0, 0)).expect("append");
    let pages = s.regenerate_html(4000);
    assert!(pages[0].1.contains("a &lt;b&gt; &amp; c"));
    assert!(!pages[0].1.contains("a <b> & c"));
}

#[test]
fn image_sequence_skips_files_already_on_disk() {
    let mut s = store(5);
    let e = s.append_history("seeded", at(11, 9, 0, 0)).expect("append");
    s.load_image_files(vec!["images/2024/05/20240511_090000_01.png".to_string()]);
    let p = s.append_image(&e.id, "a.png", b"x", at(11, 9, 0, 5)).expect("upload");
    assert_eq!(p, "images/2024/05/20240511_090000_02.png");
}

#[test]
fn loaded_archive_merges_by_id_last_write_wins() {
    let mut s = store(10);
    let raw = vec![
        HistoryEntry {
            id: "20240401_090000_0001".to_string(),
            ts: "2024-04-01 09:00:00".to_string(),
            prompt: "first write".to_string(),
            images: vec![],
        },
        HistoryEntry {
            id: "20240401_090000_0002".to_string(),
            ts: "2024-04-01 09:00:01".to_string(),
            prompt: "other".to_string(),
            images: vec![],
        },
        HistoryEntry {
            id: "20240401_090000_0001".to_string(),
            ts: "2024-04-01 09:00:00".to_string(),
            prompt: "second write".to_string(),
            images: vec![],
        },
    ];
    assert!(s.load_archive("20240401", raw));
    assert!(!s.load_archive("2024040", vec![]), "short keys are refused");
    assert!(!s.load_archive("2024040x", vec![]), "non-digit keys are refused");
    let arch = &s.archives_ref()[0];
    assert_eq!(arch.date_key, "20240401");
    assert_eq!(arch.entries.len(), 2);
    // sorted ascending by id, the repeated id keeping its last write
    assert_eq!(arch.entries[0].id, "20240401_090000_0001");
    assert_eq!(arch.entries[0].prompt, "second write");
    assert_eq!(arch.entries[1].id, "20240401_090000_0002");
}

#[test]
fn loading_an_archive_again_replaces_it_and_keeps_the_rest() {
    let mut s = store(10);
    let entry = |id: &str, prompt: &str| HistoryEntry {
        id: id.to_string(),
        ts: "2024-04-02 08:00:00".to_string(),
        prompt: prompt.to_string(),
        images: vec![],
    };
    assert!(s.load_archive("20240402", vec![entry("20240402_080000_0001", "a")]));
    assert!(s.load_archive("20240401", vec![entry("20240401_080000_0001", "b")]));
    assert!(s.load_archive("20240402", vec![entry("20240402_080000_0002", "c")]));
    // newest key first, the re-loaded archive replaced wholesale
    assert_eq!(s.archives_ref().len(), 2);
    assert_eq!(s.archives_ref()[0].date_key, "20240402");
    assert_eq!(s.archives_ref()[0].entries.len(), 1);
    assert_eq!(s.archives_ref()[0].entries[0].prompt, "c");
    assert_eq!(s.archives_ref()[1].date_key, "20240401");
}

#[test]
fn rotation_without_overflow_leaves_archives_alone() {
    let mut s = store(3);
    s.append_history("stays", at(12, 6, 0, 0)).expect("append");
    assert_eq!(s.archives_ref().len(), 0);
    s.append_history("still active", at(12, 6, 0, 1)).expect("append");
    assert_eq!(s.archives_ref().len(), 0);
}

#[test]
fn pages_embed_timestamps_images_links_and_empty_state() {
    let mut s = store(5);
    let e = s.append_history("has picture", at(13, 7, 30, 0)).expect("append");
    s.append_image(&e.id, "shot.png", b"z", at(13, 7, 30, 1)).expect("upload");
    assert!(s.load_archive("20240501", vec![]));
    let pages = s.regenerate_html(4100);
    let active = &pages[0].1;
    assert!(active.contains("2024-05-13 07:30:00"), "escaped timestamp embedded");
    assert!(active.contains("images/2024/05/20240513_073000_01.png"), "image path embedded");
    assert!(active.contains("History_20240501.html"), "archive link embedded");
    // the empty archive page shows the empty-state paragraph
    let archive_page = &pages[1].1;
    assert!(archive_page.contains("<p class=\"empty\">履歴はまだありません。</p>"));
}
