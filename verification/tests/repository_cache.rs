use ckan_meta_rs::json::{JsonMember, JsonValue};
use std::time::Instant;

use ckan_meta_rs::export_file::validate_catalog_index_file;
use ckan_meta_rs::parser::parse_loaded_details;
use ckan_meta_rs::queries::catalog_index;
use ckan_meta_rs::repository_cache::{
    load_repository_caches, safe_label, CachedCount, CachedModule, RepositoryCache,
    RepositoryCacheError,
};

fn to_json(value: &serde_json::Value) -> JsonValue {
    match value {
        serde_json::Value::Null => JsonValue::Null,
        serde_json::Value::Bool(b) => JsonValue::Bool(*b),
        serde_json::Value::Number(n) => JsonValue::Number { text: n.to_string(), as_u64: n.as_u64() },
        serde_json::Value::String(s) => JsonValue::Text { value: s.clone(), text: value.to_string() },
        serde_json::Value::Array(items) => JsonValue::Array {
            items: items.iter().map(to_json).collect(),
            text: value.to_string(),
        },
        serde_json::Value::Object(map) => JsonValue::Object {
            members: map
                .iter()
                .map(|(key, item)| JsonMember { key: key.clone(), value: to_json(item) })
                .collect(),
            text: value.to_string(),
        },
    }
}

/// Reads a repository cache document the way CKAN writes it.
fn cache_from(text: &str) -> RepositoryCache {
    let value: serde_json::Value = serde_json::from_str(text).expect("cache should parse");
    let mut modules = Vec::new();
    if let Some(available) = value.get("available_modules").and_then(|v| v.as_object()) {
        for (identifier, entry) in available {
            if let Some(versions) = entry.get("module_version").and_then(|v| v.as_object()) {
                for (version, module) in versions {
                    modules.push(CachedModule {
                        identifier: identifier.clone(),
                        version: version.clone(),
                        module: to_json(module),
                    });
                }
            }
        }
    }
    let mut download_counts = Vec::new();
    if let Some(counts) = value.get("download_counts").and_then(|v| v.as_object()) {
        for (identifier, count) in counts {
            download_counts.push(CachedCount {
                identifier: identifier.clone(),
                count: count.as_u64().expect("count should be a number"),
            });
        }
    }
    RepositoryCache { modules, download_counts }
}

#[test]
fn merges_ordered_caches_with_first_repository_winning() {
    let first = cache_from(
        r#"{
            "available_modules": {
                "Example": { "module_version": {
                    "1.0": { "identifier": "Example", "name": "Preferred", "version": "1.0" }
                }}
            },
            "download_counts": { "Example": 42 }
        }"#,
    );
    let second = cache_from(
        r#"{
            "available_modules": {
                "Example": { "module_version": {
                    "1.0": { "identifier": "Example", "name": "Lower priority", "version": "1.0" },
                    "2.0": { "identifier": "Example", "name": "New version", "version": "2.0" }
                }}
            },
            "download_counts": { "Example": 7 }
        }"#,
    );

    let loaded = match load_repository_caches(&vec![first, second], 0) {
        Ok(loaded) => loaded,
        Err(_) => panic!("caches should merge"),
    };
    let module_entries = loaded
        .entries
        .iter()
        .filter(|entry| entry.path.ends_with(".ckan"))
        .collect::<Vec<_>>();
    let preferred = module_entries
        .iter()
        .map(|entry| serde_json::from_str::<serde_json::Value>(&entry.contents).unwrap())
        .find(|module| module["version"] == "1.0")
        .unwrap();
    let counts = loaded
        .entries
        .iter()
        .find(|entry| entry.path.ends_with("download_counts.json"))
        .unwrap();

    assert_eq!(module_entries.len(), 2);
    assert_eq!(preferred["name"], "Preferred");
    assert_eq!(
        serde_json::from_str::<serde_json::Value>(&counts.contents).unwrap()["Example"],
        42
    );
}

#[test]
fn merged_entries_are_named_by_position_and_key() {
    let cache = cache_from(
        r#"{
            "available_modules": {
                "Odd Name": { "module_version": {
                    "1.0/beta": { "name": "No identifier inside" },
                    "2.0": { "identifier": "Renamed", "version": 3 }
                }}
            }
        }"#,
    );
    let loaded = match load_repository_caches(&vec![cache], 123) {
        Ok(loaded) => loaded,
        Err(_) => panic!("cache should merge"),
    };
    assert_eq!(loaded.archive_entries, 2);
    assert_eq!(loaded.bytes_read, 123);
    assert_eq!(loaded.entries.len(), 2);
    assert_eq!(loaded.entries[0].path, "repository-cache/00000000-Odd_Name-1.0_beta.ckan");
    assert_eq!(loaded.entries[1].path, "repository-cache/00000001-Renamed-3.ckan");
    assert_eq!(loaded.entries[0].contents, r#"{"name":"No identifier inside"}"#);
}

#[test]
fn merging_no_caches_is_refused() {
    assert!(matches!(
        load_repository_caches(&Vec::new(), 0),
        Err(RepositoryCacheError::NoCaches)
    ));
}

#[test]
fn safe_labels_replace_and_cut() {
    assert_eq!(safe_label("Mod Name/1.0"), "Mod_Name_1.0");
    assert_eq!(safe_label("a-b_c.d"), "a-b_c.d");
    assert_eq!(safe_label(&"x".repeat(100)).len(), 80);
    assert_eq!(safe_label("é"), "_");
}

fn merged_sample_parse() -> ckan_meta_rs::model::ArchiveParse {
    let first = cache_from(
        r#"{
            "available_modules": {
                "Example": { "module_version": {
                    "1.0": { "identifier": "Example", "version": "1.0", "release_status": "stable" },
                    "2.0": { "identifier": "Example", "version": "2.0", "release_status": "testing" }
                }},
                "Other": { "module_version": {
                    "0.1": { "identifier": " Other ", "version": "0.1", "release_status": "Alpha" }
                }}
            },
            "download_counts": { "Example": 42 }
        }"#,
    );
    let second = cache_from(
        r#"{
            "available_modules": {
                "Example": { "module_version": {
                    "3.0": { "identifier": "Example", "version": "3.0", "release_status": "development" }
                }}
            }
        }"#,
    );
    let loaded = match load_repository_caches(&vec![first, second], 10) {
        Ok(loaded) => loaded,
        Err(_) => panic!("caches should merge"),
    };
    let paths = loaded.entries.iter().map(|entry| entry.path.clone()).collect::<std::collections::BTreeSet<_>>();
    assert_eq!(paths.len(), loaded.entries.len());
    parse_loaded_details("caches".to_string(), "repository-cache", loaded, &Instant::now())
}

#[test]
fn merged_caches_build_a_catalog_that_validates() {
    assert_eq!(merged_sample_parse().modules.len(), 4);
    for latest_only in [false, true] {
        let index = catalog_index(merged_sample_parse(), latest_only);
        assert!(validate_catalog_index_file("sidecar.json", &index).is_ok());
    }
}
