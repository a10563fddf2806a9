use finansight::models::{ActivityFilter, Tag};
use finansight::predicate::{any_tag_shared, bounds_admit, date_bounds, str_less, tags_admit, DateBound};

#[test]
fn lexical_order_of_dates() {
    assert!(str_less("2024-01-01", "2024-06-15"));
    assert!(!str_less("2024-06-15", "2024-01-01"));
    assert!(!str_less("2024-01-01", "2024-01-01"));
    assert!(str_less("2024", "2024-01"));
    assert!(!str_less("", ""));
    assert!(str_less("", "a"));
}

#[test]
fn bounds_from_filter() {
    assert!(date_bounds(&None).is_empty());
    let f = ActivityFilter { initial_date: Some("2024-01-01".to_string()), final_date: Some("2024-12-31".to_string()), tags: None };
    let b = date_bounds(&Some(f));
    assert_eq!(b, vec![DateBound::After("2024-01-01".to_string()), DateBound::Before("2024-12-31".to_string())]);
    assert!(bounds_admit(&b, "2024-06-15"));
    assert!(!bounds_admit(&b, "2024-01-01"));
    assert!(!bounds_admit(&b, "2024-12-31"));
    assert!(bounds_admit(&Vec::new(), "anything"));
}

#[test]
fn any_of_tag_matching() {
    let t = |id: Option<&str>| Tag { id: id.map(|s| s.to_string()), name: String::new() };
    let held = vec![t(Some("a")), t(Some("b"))];
    assert!(any_tag_shared(&held, &vec![t(Some("c")), t(Some("b"))]));
    assert!(!any_tag_shared(&held, &vec![t(Some("c"))]));
    assert!(!any_tag_shared(&Vec::new(), &vec![t(Some("a"))]));
    let f = |tags: Option<Vec<Tag>>| Some(ActivityFilter { initial_date: None, final_date: None, tags });
    assert!(tags_admit(&f(None), &Vec::new()));
    assert!(tags_admit(&f(Some(Vec::new())), &Vec::new()));
    assert!(!tags_admit(&f(Some(vec![t(Some("a"))])), &Vec::new()));
    assert!(tags_admit(&f(Some(vec![t(Some("a"))])), &held));
}
