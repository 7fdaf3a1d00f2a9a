use std::cmp::Ordering;

use ckan_meta_rs::version::compare_version_text;

#[test]
fn compares_numeric_version_chunks() {
    assert_eq!(
        compare_version_text(&Some("v1.13".to_string()), &Some("v1.9".to_string())),
        Ordering::Greater
    );
    assert_eq!(
        compare_version_text(&Some("3:v4.13".to_string()), &Some("2:v999".to_string())),
        Ordering::Greater
    );
    assert_eq!(
        compare_version_text(&Some("1.0.0".to_string()), &Some("1".to_string())),
        Ordering::Equal
    );
}

#[test]
fn missing_runs_compare_as_zero() {
    let v = |s: &str| Some(s.to_string());
    assert_eq!(compare_version_text(&v("1.0"), &v("1")), Ordering::Equal);
    assert_eq!(compare_version_text(&v("1"), &v("1.a")), Ordering::Greater);
    assert_eq!(compare_version_text(&v("1.0"), &v("1.a")), Ordering::Greater);
    assert_eq!(compare_version_text(&v("1.a"), &v("1")), Ordering::Less);
    assert_eq!(compare_version_text(&v("1"), &v("1.0.1")), Ordering::Less);
}
