use vienna::api::{
    apply_item_delta, import_action, import_precheck, is_blank, is_safe_child_name, log_secret_accepted, log_tail_start,
    normalize_roles, order_logs_newest_first, safe_child_path, updated_item_count, ImportAction, LogFileInfo,
};

#[test]
fn counts_never_go_below_zero() {
    assert_eq!(updated_item_count(5, 3), 8);
    assert_eq!(updated_item_count(5, -3), 2);
    assert_eq!(updated_item_count(5, -5), 0);
    assert_eq!(updated_item_count(5, -50), 0);
    assert_eq!(updated_item_count(0, i32::MIN), 0);
}

#[test]
fn counts_past_the_largest_wrap_around() {
    assert_eq!(updated_item_count(u32::MAX, 0), u32::MAX);
    assert_eq!(updated_item_count(u32::MAX, 1), 0);
    assert_eq!(updated_item_count(u32::MAX, 5), 4);
}

fn inventory(entries: &[(&str, u32)]) -> Vec<(String, u32)> {
    entries.iter().map(|(id, count)| ((*id).to_owned(), *count)).collect()
}

#[test]
fn inventory_deltas_set_or_remove_one_entry() {
    let mut items = inventory(&[("stone", 3), ("wood", 1)]);
    apply_item_delta(&mut items, "stone", 2);
    assert_eq!(items, inventory(&[("stone", 5), ("wood", 1)]));
    apply_item_delta(&mut items, "wood", -1);
    assert_eq!(items, inventory(&[("stone", 5)]));
    apply_item_delta(&mut items, "gold", 4);
    assert_eq!(items, inventory(&[("stone", 5), ("gold", 4)]));
    apply_item_delta(&mut items, "iron", -4);
    assert_eq!(items, inventory(&[("stone", 5), ("gold", 4)]));
    apply_item_delta(&mut items, "stone", -9);
    assert_eq!(items, inventory(&[("gold", 4)]));
}

#[test]
fn roles_are_sorted_and_kept_once() {
    let roles = vec!["b".to_owned(), "a".to_owned(), "b".to_owned(), "ab".to_owned(), "B".to_owned()];
    assert_eq!(normalize_roles(roles), vec!["B", "a", "ab", "b"]);
    assert!(normalize_roles(vec![]).is_empty());
    let unicode = vec!["é".to_owned(), "z".to_owned(), "e".to_owned()];
    assert_eq!(normalize_roles(unicode), vec!["e", "z", "é"]);
}

#[test]
fn blank_types_and_ids_are_refused() {
    assert!(is_blank(""));
    assert!(is_blank(" \t\n"));
    assert!(is_blank("\u{3000}\u{a0}"));
    assert!(!is_blank(" x "));
    assert!(import_precheck("player", " "));
    assert!(import_precheck("", "id"));
    assert!(!import_precheck("player", "id"));
}

#[test]
fn existing_objects_are_skipped_unless_merging() {
    assert_eq!(import_action(1, false), ImportAction::Import);
    assert_eq!(import_action(1, true), ImportAction::Import);
    assert_eq!(import_action(2, false), ImportAction::SkipExisting);
    assert_eq!(import_action(7, true), ImportAction::MergeOver);
}

#[test]
fn logs_need_the_secret_when_one_is_set() {
    assert!(log_secret_accepted(None, None));
    assert!(log_secret_accepted(None, Some("anything")));
    assert!(log_secret_accepted(Some("s3"), Some("s3")));
    assert!(!log_secret_accepted(Some("s3"), Some("s4")));
    assert!(!log_secret_accepted(Some("s3"), None));
}

#[test]
fn log_names_stay_inside_the_directory() {
    assert!(is_safe_child_name("server.log"));
    assert!(is_safe_child_name("a.b.c"));
    assert!(!is_safe_child_name("../secret"));
    assert!(!is_safe_child_name("a/b"));
    assert!(!is_safe_child_name("a\\b"));
    assert!(!is_safe_child_name("x..y"));
    let root = std::path::PathBuf::from("logs");
    assert_eq!(safe_child_path(&root, "server.log"), Some(root.join("server.log")));
    assert_eq!(safe_child_path(&root, ".."), None);
}

#[test]
fn log_reads_return_the_tail() {
    assert_eq!(log_tail_start(10), 0);
    assert_eq!(log_tail_start(65_536), 0);
    assert_eq!(log_tail_start(65_537), 1);
    assert_eq!(log_tail_start(200_000), 200_000 - 65_536);
}

fn log(name: &str, modified_ms: Option<u64>) -> LogFileInfo {
    LogFileInfo { name: name.to_owned(), bytes: 1, modified_ms }
}

#[test]
fn logs_are_listed_newest_first() {
    let ordered = order_logs_newest_first(vec![
        log("a", Some(5)),
        log("b", None),
        log("c", Some(9)),
        log("d", Some(5)),
        log("e", None),
    ]);
    let names: Vec<&str> = ordered.iter().map(|f| f.name.as_str()).collect();
    assert_eq!(names, vec!["c", "a", "d", "b", "e"]);
}
