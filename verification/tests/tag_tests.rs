use daybook::tags::TagConfig;
use daybook::watch::{tags_file_event_triggers_reload, tags_file_name};

fn color_of<'a>(c: &'a TagConfig, tag: &str) -> Option<&'a str> {
    c.tag_colors.iter().find(|p| p.tag == tag).map(|p| p.color.as_str())
}

#[test]
fn default_taxonomy_is_empty() {
    let c = TagConfig::default();
    assert!(c.available_tags.is_empty());
    assert!(c.tag_colors.is_empty());
}

#[test]
fn add_tag_with_color_makes_it_available() {
    let mut c = TagConfig::default();
    c.add_tag("Food".to_string(), Some("#ff0000".to_string()));
    assert_eq!(c.available_tags, vec!["Food"]);
    assert_eq!(color_of(&c, "Food"), Some("#ff0000"));
}

#[test]
fn adding_a_tag_again_does_not_duplicate_it() {
    let mut c = TagConfig::default();
    c.add_tag("Food".to_string(), Some("#ff0000".to_string()));
    c.add_tag("Food".to_string(), None);
    assert_eq!(c.available_tags, vec!["Food"]);
    assert_eq!(color_of(&c, "Food"), Some("#ff0000"));
}

#[test]
fn adding_a_tag_again_with_a_color_overwrites_it() {
    let mut c = TagConfig::default();
    c.add_tag("Food".to_string(), Some("#ff0000".to_string()));
    c.add_tag("Food".to_string(), Some("#00ff00".to_string()));
    assert_eq!(c.available_tags, vec!["Food"]);
    assert_eq!(color_of(&c, "Food"), Some("#00ff00"));
    assert_eq!(c.tag_colors.len(), 1);
}

#[test]
fn add_tag_without_color_leaves_colors_alone() {
    let mut c = TagConfig::default();
    c.add_tag("Rent".to_string(), None);
    assert_eq!(c.available_tags, vec!["Rent"]);
    assert!(c.tag_colors.is_empty());
}

#[test]
fn tags_keep_insertion_order() {
    let mut c = TagConfig::default();
    c.add_tag("Rent".to_string(), None);
    c.add_tag("Food".to_string(), Some("#ff0000".to_string()));
    c.add_tag("Books".to_string(), None);
    assert_eq!(c.available_tags, vec!["Rent", "Food", "Books"]);
}

#[test]
fn remove_tag_deletes_name_and_color() {
    let mut c = TagConfig::default();
    c.add_tag("Food".to_string(), Some("#ff0000".to_string()));
    c.add_tag("Rent".to_string(), Some("#0000ff".to_string()));
    c.remove_tag("Food".to_string());
    assert_eq!(c.available_tags, vec!["Rent"]);
    assert_eq!(color_of(&c, "Food"), None);
    assert_eq!(color_of(&c, "Rent"), Some("#0000ff"));
}

#[test]
fn removing_a_tag_again_is_a_noop() {
    let mut c = TagConfig::default();
    c.add_tag("Food".to_string(), Some("#ff0000".to_string()));
    c.remove_tag("Food".to_string());
    c.remove_tag("Food".to_string());
    assert!(c.available_tags.is_empty());
    assert!(c.tag_colors.is_empty());
}

#[test]
fn watcher_fires_only_for_modified_taxonomy_file() {
    assert!(tags_file_event_triggers_reload(true, Some("tags.json")));
    assert!(!tags_file_event_triggers_reload(true, Some("other.json")));
    assert!(!tags_file_event_triggers_reload(true, None));
    assert!(!tags_file_event_triggers_reload(false, Some("tags.json")));
}

#[test]
fn taxonomy_file_name_is_fixed() {
    assert_eq!(tags_file_name(), "tags.json");
}
