use finansight::error::StoreError;
use finansight::models::{Activity, ActivityFilter, MonetaryMedium, Operation, StaticFilter, Tag};
use finansight::store::{Store, TagRow};

fn medium(id: &str) -> MonetaryMedium {
    MonetaryMedium { name: format!("medium {}", id), id: id.to_string(), is_valid_for_credit: true }
}

fn named(name: &str) -> Tag {
    Tag { id: None, name: name.to_string() }
}

fn activity(id: Option<&str>, date: &str, tags: Option<Vec<Tag>>) -> Activity {
    Activity {
        id: id.map(|s| s.to_string()),
        value: 1250,
        medium: medium("bank"),
        operation: Operation::Debit,
        description: "groceries".to_string(),
        date: date.to_string(),
        parent_id: None,
        tags,
    }
}

fn store_with_bank() -> Store {
    let mut s = Store::new();
    s.add_medium(&medium("bank")).unwrap();
    s
}

fn ids_of(tags: &Option<Vec<Tag>>) -> Vec<String> {
    let mut v: Vec<String> = tags.iter().flatten().map(|t| t.id.clone().unwrap()).collect();
    v.sort();
    v
}

fn no_filter_ids(s: &Store) -> Vec<String> {
    s.list_activities(&None).into_iter().map(|a| a.id.unwrap()).collect()
}

#[test]
fn resolve_by_name_twice_keeps_one_row() {
    let mut s = Store::new();
    let first = s.resolve_tag(&named("X")).unwrap();
    let second = s.resolve_tag(&named("X")).unwrap();
    assert_eq!(first, second);
    assert_eq!(s.tags.iter().filter(|t| t.name == "X").count(), 1);
    assert_eq!(s.tags.len(), 1);
}

#[test]
fn resolve_with_given_id_changes_nothing() {
    let mut s = Store::new();
    let id = s.resolve_tag(&Tag { id: Some("t-1".to_string()), name: "ignored".to_string() }).unwrap();
    assert_eq!(id, "t-1");
    assert!(s.tags.is_empty());
}

#[test]
fn resolve_with_taken_fresh_id_is_not_found() {
    let mut s = Store::new();
    s.tags.push(TagRow { id: "dup".to_string(), name: "A".to_string() });
    let r = s.resolve_tag_with(&named("B"), "dup".to_string());
    assert_eq!(r, Err(StoreError::NotFound));
    assert_eq!(s.tags.len(), 1);
}

#[test]
fn created_activity_is_listed_with_its_tags() {
    let mut s = store_with_bank();
    let existing = s.resolve_tag(&named("food")).unwrap();
    let tags = vec![named("weekly"), Tag { id: Some(existing.clone()), name: "food".to_string() }, named("weekly")];
    let id = s.create_activity(&activity(Some("a1"), "2024-03-01", Some(tags))).unwrap();
    assert_eq!(id, "a1");
    let listed = s.list_activities(&None);
    assert_eq!(listed.len(), 1);
    let a = &listed[0];
    assert_eq!(a.id.as_deref(), Some("a1"));
    assert_eq!(a.value, 1250);
    assert_eq!(a.medium, medium("bank"));
    assert_eq!(a.operation, Operation::Debit);
    assert_eq!(a.description, "groceries");
    assert_eq!(a.date, "2024-03-01");
    assert_eq!(a.parent_id, None);
    let weekly = s.tags.iter().find(|t| t.name == "weekly").unwrap().id.clone();
    let mut expected = vec![existing, weekly];
    expected.sort();
    assert_eq!(ids_of(&a.tags), expected);
    assert_eq!(s.tags.len(), 2);
}

#[test]
fn created_activity_without_id_gets_a_fresh_one() {
    let mut s = store_with_bank();
    let a = s.create_activity(&activity(None, "2024-03-01", None)).unwrap();
    let b = s.create_activity(&activity(None, "2024-03-02", None)).unwrap();
    assert_eq!(a.chars().count(), 36);
    assert_eq!(b.chars().count(), 36);
    assert_ne!(a, b);
    let listed = s.list_activities(&None);
    assert_eq!(listed.len(), 2);
    assert_eq!(listed[0].tags, None);
}

#[test]
fn create_refuses_duplicate_id_and_missing_references() {
    let mut s = store_with_bank();
    s.create_activity(&activity(Some("a1"), "2024-01-01", None)).unwrap();
    assert_eq!(s.create_activity(&activity(Some("a1"), "2024-01-02", None)), Err(StoreError::Duplicate));
    let mut other = activity(Some("a2"), "2024-01-02", None);
    other.medium = medium("cash");
    assert_eq!(s.create_activity(&other), Err(StoreError::ForeignKeyViolation));
    let mut child = activity(Some("a3"), "2024-01-02", None);
    child.parent_id = Some("nope".to_string());
    assert_eq!(s.create_activity(&child), Err(StoreError::ForeignKeyViolation));
    child.parent_id = Some("a1".to_string());
    assert_eq!(s.create_activity(&child), Ok("a3".to_string()));
    let unknown_tag = activity(Some("a4"), "2024-01-03", Some(vec![Tag { id: Some("ghost".to_string()), name: "g".to_string() }]));
    assert_eq!(s.create_activity(&unknown_tag), Err(StoreError::ForeignKeyViolation));
    assert_eq!(s.activities.len(), 3);
    assert!(s.activity_tags.is_empty());
}

#[test]
fn delete_removes_activity_and_links() {
    let mut s = store_with_bank();
    s.create_activity(&activity(Some("a1"), "2024-01-05", Some(vec![named("x"), named("y")]))).unwrap();
    s.create_activity(&activity(Some("a2"), "2024-01-06", Some(vec![named("x")]))).unwrap();
    assert_eq!(s.activity_tags.len(), 3);
    assert_eq!(s.delete_activity(&"a1".to_string()), Ok(1));
    assert_eq!(no_filter_ids(&s), vec!["a2".to_string()]);
    assert!(s.activity_tags.iter().all(|l| l.owner_id != "a1"));
    assert_eq!(s.activity_tags.len(), 1);
    assert_eq!(s.delete_activity(&"a1".to_string()), Ok(0));
    assert_eq!(s.tags.len(), 2);
}

#[test]
fn tag_filter_matches_any_shared_tag() {
    let mut s = store_with_bank();
    let x = s.resolve_tag(&named("x")).unwrap();
    let y = s.resolve_tag(&named("y")).unwrap();
    let z = s.resolve_tag(&named("z")).unwrap();
    s.create_activity(&activity(Some("xy"), "2024-01-01", Some(vec![named("x"), named("y")]))).unwrap();
    s.create_activity(&activity(Some("z"), "2024-01-02", Some(vec![named("z")]))).unwrap();
    s.create_activity(&activity(Some("none"), "2024-01-03", None)).unwrap();
    let by = |ids: Vec<&String>| {
        let f = ActivityFilter {
            initial_date: None,
            final_date: None,
            tags: Some(ids.into_iter().map(|i| Tag { id: Some(i.clone()), name: String::new() }).collect()),
        };
        s.list_activities(&Some(f)).into_iter().map(|a| a.id.unwrap()).collect::<Vec<_>>()
    };
    assert_eq!(by(vec![&y, &z]), vec!["xy".to_string(), "z".to_string()]);
    assert_eq!(by(vec![&x]), vec!["xy".to_string()]);
    assert_eq!(by(vec![&z]), vec!["z".to_string()]);
    assert_eq!(by(vec![]).len(), 3);
    let no_tags = ActivityFilter { initial_date: None, final_date: None, tags: None };
    assert_eq!(s.list_activities(&Some(no_tags)).len(), 3);
}

#[test]
fn date_filter_bounds_are_strict() {
    let mut s = store_with_bank();
    s.create_activity(&activity(Some("first"), "2024-01-01", None)).unwrap();
    s.create_activity(&activity(Some("middle"), "2024-06-15", None)).unwrap();
    s.create_activity(&activity(Some("last"), "2024-12-31", None)).unwrap();
    let f = ActivityFilter {
        initial_date: Some("2024-01-01".to_string()),
        final_date: Some("2024-12-31".to_string()),
        tags: None,
    };
    let ids: Vec<String> = s.list_activities(&Some(f)).into_iter().map(|a| a.id.unwrap()).collect();
    assert_eq!(ids, vec!["middle".to_string()]);
    let lower_only = ActivityFilter { initial_date: Some("2024-01-01".to_string()), final_date: None, tags: None };
    assert_eq!(s.list_activities(&Some(lower_only)).len(), 2);
    let upper_only = ActivityFilter { initial_date: None, final_date: Some("2024-06-15".to_string()), tags: None };
    assert_eq!(s.list_activities(&Some(upper_only)).len(), 1);
}

#[test]
fn activity_with_missing_medium_row_is_not_listed() {
    let mut s = store_with_bank();
    s.create_activity(&activity(Some("a1"), "2024-01-01", None)).unwrap();
    s.media.clear();
    assert!(s.list_activities(&None).is_empty());
}

fn store_with_filter() -> (Store, String) {
    let mut s = Store::new();
    let f = StaticFilter {
        id: "f1".to_string(),
        initial_date: "2024-01-01".to_string(),
        final_date: "2024-02-01".to_string(),
        tags: None,
    };
    s.create_filter(&f).unwrap();
    let t = s.resolve_tag(&named("rent")).unwrap();
    (s, t)
}

#[test]
fn filter_tag_add_then_remove() {
    let (mut s, t) = store_with_filter();
    let f = "f1".to_string();
    let added = s.add_filter_tag(&f, &t).unwrap();
    assert_eq!(ids_of(&added.tags), vec![t.clone()]);
    assert_eq!(ids_of(&s.get_filter(&f).unwrap().tags), vec![t.clone()]);
    assert_eq!(ids_of(&s.list_filters()[0].tags), vec![t.clone()]);
    assert_eq!(s.add_filter_tag(&f, &t), Err(StoreError::Duplicate));
    let removed = s.remove_filter_tag(&f, &t).unwrap();
    assert_eq!(removed.tags, None);
    let again = s.remove_filter_tag(&f, &t).unwrap();
    assert_eq!(again.tags, None);
    assert_eq!(again.initial_date, "2024-01-01");
}

#[test]
fn filter_tag_refuses_missing_rows() {
    let (mut s, t) = store_with_filter();
    assert_eq!(s.add_filter_tag(&"f9".to_string(), &t), Err(StoreError::ForeignKeyViolation));
    assert_eq!(s.add_filter_tag(&"f1".to_string(), &"t9".to_string()), Err(StoreError::ForeignKeyViolation));
    assert_eq!(s.remove_filter_tag(&"f9".to_string(), &t), Err(StoreError::NotFound));
    assert_eq!(s.get_filter(&"f9".to_string()), Err(StoreError::NotFound));
}

#[test]
fn update_range_round_trip_keeps_tags() {
    let (mut s, t) = store_with_filter();
    let f = "f1".to_string();
    s.add_filter_tag(&f, &t).unwrap();
    let update = StaticFilter {
        id: f.clone(),
        initial_date: "2023-05-01".to_string(),
        final_date: "2023-06-01".to_string(),
        tags: None,
    };
    let echoed = s.update_filter_range(update.clone());
    assert_eq!(echoed, update);
    let back = s.get_filter(&f).unwrap();
    assert_eq!(back.initial_date, "2023-05-01");
    assert_eq!(back.final_date, "2023-06-01");
    assert_eq!(ids_of(&back.tags), vec![t]);
}

#[test]
fn create_filter_refuses_duplicate_id() {
    let (mut s, _) = store_with_filter();
    let f = StaticFilter { id: "f1".to_string(), initial_date: "a".to_string(), final_date: "b".to_string(), tags: None };
    assert_eq!(s.create_filter(&f), Err(StoreError::Duplicate));
    assert_eq!(s.list_filters().len(), 1);
}

#[test]
fn media_are_listed_and_duplicates_refused() {
    let mut s = store_with_bank();
    s.add_medium(&medium("cash")).unwrap();
    assert_eq!(s.add_medium(&medium("bank")), Err(StoreError::Duplicate));
    assert_eq!(s.list_monetary_media(), vec![medium("bank"), medium("cash")]);
}

#[test]
fn suggestion_tags_stop_at_limit() {
    let mut s = Store::new();
    for i in 0..101 {
        s.resolve_tag(&named(&format!("tag{}", i))).unwrap();
    }
    let tags = s.list_suggestion_tags();
    assert_eq!(tags.len(), 100);
    assert_eq!(tags[0].name, "tag0");
    assert_eq!(tags[99].name, "tag99");
    assert_eq!(tags[0].id.as_deref(), Some(s.tags[0].id.as_str()));
}

#[test]
fn well_formedness_check() {
    let mut s = store_with_bank();
    s.create_activity(&activity(Some("a1"), "2024-01-01", Some(vec![named("x")]))).unwrap();
    assert!(s.is_well_formed());
    s.tags.push(TagRow { id: "other".to_string(), name: "x".to_string() });
    assert!(!s.is_well_formed());
    s.tags.pop();
    s.activities.clear();
    assert!(!s.is_well_formed());
}

#[test]
fn error_messages_are_distinct() {
    let d = StoreError::Duplicate.message();
    let m = StoreError::ForeignKeyViolation.message();
    let n = StoreError::NotFound.message();
    assert!(d != m && m != n && d != n);
}

#[test]
fn delete_refuses_a_parent_still_referenced() {
    let mut s = store_with_bank();
    s.create_activity(&activity(Some("charge"), "2024-01-01", None)).unwrap();
    let mut refund = activity(Some("refund"), "2024-01-02", None);
    refund.parent_id = Some("charge".to_string());
    s.create_activity(&refund).unwrap();
    assert_eq!(s.delete_activity(&"charge".to_string()), Err(StoreError::ForeignKeyViolation));
    assert_eq!(s.activities.len(), 2);
    assert_eq!(s.delete_activity(&"refund".to_string()), Ok(1));
    assert_eq!(s.delete_activity(&"charge".to_string()), Ok(1));
    assert!(s.list_activities(&None).is_empty());
}
