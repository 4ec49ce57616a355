use daybook::entry::{EntryRequest, StoreError};
use daybook::store::EntryStore;

fn req(tag: &str, value: i64) -> EntryRequest {
    EntryRequest { tag: tag.to_string(), value, description: None }
}

fn req_desc(tag: &str, value: i64, d: &str) -> EntryRequest {
    EntryRequest { tag: tag.to_string(), value, description: Some(d.to_string()) }
}

#[test]
fn empty_store_lists_nothing() {
    let s = EntryStore::new();
    let r = s.get_entries("2024-01-15".to_string());
    assert!(r.entries.is_empty());
    assert!(!r.locked);
}

#[test]
fn replace_day_then_list_returns_exactly_the_set() {
    let mut s = EntryStore::new();
    let ok = s
        .add_entries(
            "2024-01-15".to_string(),
            vec![req("rent", 120000), req_desc("food", 5050, "groceries")],
        )
        .unwrap();
    assert!(ok);
    let r = s.get_entries("2024-01-15".to_string());
    assert_eq!(r.entries.len(), 2);
    assert!(!r.locked);
    assert_eq!(r.entries[0].id, 1);
    assert_eq!(r.entries[0].tag, "rent");
    assert_eq!(r.entries[0].value, 120000);
    assert_eq!(r.entries[0].date, "2024-01-15");
    assert!(!r.entries[0].locked);
    assert_eq!(r.entries[0].description, None);
    assert_eq!(r.entries[1].id, 2);
    assert_eq!(r.entries[1].tag, "food");
    assert_eq!(r.entries[1].value, 5050);
    assert_eq!(r.entries[1].description.as_deref(), Some("groceries"));
}

#[test]
fn replace_day_is_a_full_replace_with_fresh_ids() {
    let mut s = EntryStore::new();
    s.add_entries("2024-01-15".to_string(), vec![req("rent", 120000)]).unwrap();
    s.add_entries("2024-01-15".to_string(), vec![req("coffee", 450)]).unwrap();
    let r = s.get_entries("2024-01-15".to_string());
    assert_eq!(r.entries.len(), 1);
    assert_eq!(r.entries[0].tag, "coffee");
    assert_eq!(r.entries[0].id, 2);
}

#[test]
fn replace_day_leaves_other_days_alone() {
    let mut s = EntryStore::new();
    s.add_entries("2024-01-15".to_string(), vec![req("rent", 120000)]).unwrap();
    s.add_entries("2024-01-16".to_string(), vec![req("food", 5050)]).unwrap();
    s.add_entries("2024-01-15".to_string(), vec![req("coffee", 450)]).unwrap();
    let other = s.get_entries("2024-01-16".to_string());
    assert_eq!(other.entries.len(), 1);
    assert_eq!(other.entries[0].tag, "food");
}

#[test]
fn lock_day_returns_confirmation_and_locks() {
    let mut s = EntryStore::new();
    s.add_entries("2024-01-15".to_string(), vec![req("rent", 120000)]).unwrap();
    let msg = s.lock_day("2024-01-15".to_string());
    assert_eq!(msg, "Day 2024-01-15 locked successfully");
    let r = s.get_entries("2024-01-15".to_string());
    assert!(r.locked);
    assert!(r.entries[0].locked);
}

#[test]
fn lock_day_is_idempotent() {
    let mut s = EntryStore::new();
    s.add_entries("2024-01-15".to_string(), vec![req("rent", 120000), req("food", 5050)])
        .unwrap();
    s.lock_day("2024-01-15".to_string());
    let first = s.get_entries("2024-01-15".to_string());
    s.lock_day("2024-01-15".to_string());
    let second = s.get_entries("2024-01-15".to_string());
    assert_eq!(first.locked, second.locked);
    assert_eq!(first.entries.len(), second.entries.len());
    for (a, b) in first.entries.iter().zip(second.entries.iter()) {
        assert_eq!(a.id, b.id);
        assert_eq!(a.tag, b.tag);
        assert_eq!(a.value, b.value);
        assert_eq!(a.locked, b.locked);
    }
}

#[test]
fn lock_day_without_entries_is_a_noop_success() {
    let mut s = EntryStore::new();
    let msg = s.lock_day("2030-01-01".to_string());
    assert_eq!(msg, "Day 2030-01-01 locked successfully");
    let r = s.get_entries("2030-01-01".to_string());
    assert!(!r.locked);
    assert!(r.entries.is_empty());
}

#[test]
fn locked_day_rejects_replace_and_keeps_rows() {
    let mut s = EntryStore::new();
    s.add_entries("2024-01-15".to_string(), vec![req("rent", 120000)]).unwrap();
    s.lock_day("2024-01-15".to_string());
    let e = s.add_entries("2024-01-15".to_string(), vec![req("coffee", 450)]);
    assert_eq!(e, Err(StoreError::DayLocked));
    let r = s.get_entries("2024-01-15".to_string());
    assert_eq!(r.entries.len(), 1);
    assert_eq!(r.entries[0].tag, "rent");
    assert_eq!(r.entries[0].value, 120000);
}

#[test]
fn locked_entry_rejects_update_and_keeps_row() {
    let mut s = EntryStore::new();
    s.add_entries("2024-01-15".to_string(), vec![req("rent", 120000)]).unwrap();
    let id = s.get_entries("2024-01-15".to_string()).entries[0].id;
    s.lock_day("2024-01-15".to_string());
    let e = s.update_entry(id, "rent".to_string(), 130000, None);
    assert_eq!(e, Err(StoreError::EntryLocked));
    let r = s.get_entries("2024-01-15".to_string());
    assert_eq!(r.entries[0].value, 120000);
}

#[test]
fn update_unknown_id_is_not_found() {
    let mut s = EntryStore::new();
    let e = s.update_entry(42, "rent".to_string(), 1, None);
    assert_eq!(e, Err(StoreError::NotFound));
}

#[test]
fn update_entry_changes_fields_in_place() {
    let mut s = EntryStore::new();
    s.add_entries("2024-01-15".to_string(), vec![req("rent", 120000), req("food", 5050)])
        .unwrap();
    let id = s.get_entries("2024-01-15".to_string()).entries[1].id;
    let ok = s
        .update_entry(id, "snacks".to_string(), 6000, Some("late night".to_string()))
        .unwrap();
    assert!(ok);
    let r = s.get_entries("2024-01-15".to_string());
    assert_eq!(r.entries[1].id, id);
    assert_eq!(r.entries[1].tag, "snacks");
    assert_eq!(r.entries[1].value, 6000);
    assert_eq!(r.entries[1].description.as_deref(), Some("late night"));
    assert_eq!(r.entries[1].date, "2024-01-15");
    assert_eq!(r.entries[0].tag, "rent");
}

#[test]
fn error_messages_match_the_surface() {
    assert_eq!(StoreError::DayLocked.message(), "Day is locked");
    assert_eq!(StoreError::EntryLocked.message(), "Cannot edit locked entry");
    assert_eq!(StoreError::NotFound.message(), "Entry not found");
}

#[test]
fn scenario_lock_and_summarize_january() {
    let mut s = EntryStore::new();
    s.add_entries("2024-01-15".to_string(), vec![req("rent", 120000), req("food", 5050)])
        .unwrap();
    let listed = s.get_entries("2024-01-15".to_string());
    assert_eq!(listed.entries.len(), 2);
    assert!(!listed.locked);
    let rent_id = listed.entries.iter().find(|e| e.tag == "rent").unwrap().id;
    s.lock_day("2024-01-15".to_string());
    let e = s.update_entry(rent_id, "rent".to_string(), 130000, None);
    assert_eq!(e, Err(StoreError::EntryLocked));
    let sum = s.get_monthly_summary("2024-01".to_string());
    assert_eq!(sum.tags.len(), 2);
    assert_eq!(sum.tags[0].tag, "rent");
    assert_eq!(sum.tags[0].total, 120000);
    assert_eq!(sum.tags[1].tag, "food");
    assert_eq!(sum.tags[1].total, 5050);
    assert_eq!(sum.total, 125050);
}
