use daybook::entry::EntryRequest;
use daybook::store::EntryStore;

fn req(tag: &str, value: i64) -> EntryRequest {
    EntryRequest { tag: tag.to_string(), value, description: None }
}

fn seeded() -> EntryStore {
    let mut s = EntryStore::new();
    s.add_entries("2023-12-31".to_string(), vec![req("food", 100)]).unwrap();
    s.add_entries("2024-01-02".to_string(), vec![req("rent", 120000), req("food", 2000)])
        .unwrap();
    s.add_entries("2024-01-15".to_string(), vec![req("food", 5050), req("books", 1500)])
        .unwrap();
    s.add_entries("2022-05-05".to_string(), vec![req("travel", 9999)]).unwrap();
    s
}

#[test]
fn months_are_distinct_and_descending() {
    let s = seeded();
    let months = s.get_months();
    assert_eq!(months, vec!["2024-01", "2023-12", "2022-05"]);
}

#[test]
fn months_of_empty_store_are_empty() {
    let s = EntryStore::new();
    assert!(s.get_months().is_empty());
}

#[test]
fn graph_dates_are_distinct_and_ascending() {
    let mut s = seeded();
    s.add_entries("2024-01-02".to_string(), vec![req("rent", 1)]).unwrap();
    let dates = s.get_graph_data();
    assert_eq!(dates, vec!["2022-05-05", "2023-12-31", "2024-01-02", "2024-01-15"]);
}

#[test]
fn monthly_summary_groups_by_tag_in_first_occurrence_order() {
    let s = seeded();
    let sum = s.get_monthly_summary("2024-01".to_string());
    assert_eq!(sum.tags.len(), 3);
    assert_eq!(sum.tags[0].tag, "rent");
    assert_eq!(sum.tags[0].total, 120000);
    assert_eq!(sum.tags[1].tag, "food");
    assert_eq!(sum.tags[1].total, 7050);
    assert_eq!(sum.tags[2].tag, "books");
    assert_eq!(sum.tags[2].total, 1500);
    assert_eq!(sum.total, 128550);
}

#[test]
fn monthly_summary_of_empty_month_is_empty_and_zero() {
    let s = seeded();
    let sum = s.get_monthly_summary("2019-07".to_string());
    assert!(sum.tags.is_empty());
    assert_eq!(sum.total, 0);
}

#[test]
fn grand_total_equals_sum_of_tag_totals() {
    let s = seeded();
    let sum = s.get_monthly_summary("2024-01".to_string());
    let by_tag: i128 = sum.tags.iter().map(|t| t.total).sum();
    assert_eq!(sum.total, by_tag);
}

#[test]
fn summary_agrees_with_monthly_entries() {
    let s = seeded();
    let sum = s.get_monthly_summary("2024-01".to_string());
    let entries = s.get_monthly_entries("2024-01".to_string());
    for t in &sum.tags {
        let derived: i128 = entries
            .iter()
            .filter(|e| e.tag == t.tag)
            .map(|e| e.value as i128)
            .sum();
        assert_eq!(t.total, derived);
    }
    let grand: i128 = entries.iter().map(|e| e.value as i128).sum();
    assert_eq!(sum.total, grand);
}

#[test]
fn monthly_total_returns_the_same_grouping() {
    let s = seeded();
    let totals = s.get_monthly_total("2024-01".to_string());
    assert_eq!(totals.len(), 3);
    assert_eq!(totals[0].tag, "rent");
    assert_eq!(totals[0].total, 120000);
    assert_eq!(totals[1].tag, "food");
    assert_eq!(totals[1].total, 7050);
    assert_eq!(totals[2].tag, "books");
    assert_eq!(totals[2].total, 1500);
}

#[test]
fn monthly_entries_are_ordered_by_date_then_id() {
    let s = seeded();
    let entries = s.get_monthly_entries("2024-01".to_string());
    assert_eq!(entries.len(), 4);
    for w in entries.windows(2) {
        assert!(
            w[0].date < w[1].date || (w[0].date == w[1].date && w[0].id < w[1].id),
            "entries out of order"
        );
    }
    assert_eq!(entries[0].date, "2024-01-02");
    assert_eq!(entries[3].date, "2024-01-15");
}

#[test]
fn monthly_entries_of_empty_month_are_empty() {
    let s = seeded();
    assert!(s.get_monthly_entries("2019-07".to_string()).is_empty());
}

#[test]
fn negative_values_sum_correctly() {
    let mut s = EntryStore::new();
    s.add_entries("2024-03-01".to_string(), vec![req("refund", -500), req("food", 300)])
        .unwrap();
    let sum = s.get_monthly_summary("2024-03".to_string());
    assert_eq!(sum.total, -200);
}
