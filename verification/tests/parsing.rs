use ckan_meta_rs::archive::{is_relevant_entry, TextEntry};
use ckan_meta_rs::json::{JsonMember, JsonValue};
use ckan_meta_rs::parser::{
    count_json_named_array_or_object, count_json_object, is_ckan_entry, parse_download_counts,
};
use ckan_meta_rs::module_entry::{normalize_release_status, parse_module_entry, relationship_names};

fn to_json(value: &serde_json::Value) -> JsonValue {
    match value {
        serde_json::Value::Null => JsonValue::Null,
        serde_json::Value::Bool(b) => JsonValue::Bool(*b),
        serde_json::Value::Number(n) => JsonValue::Number { text: n.to_string(), as_u64: n.as_u64() },
        serde_json::Value::String(s) => JsonValue::Text { value: s.clone(), text: value.to_string() },
        serde_json::Value::Array(items) => JsonValue::Array {
            items: items.iter().map(to_json).collect(),
            text: value.to_string(),
        },
        serde_json::Value::Object(map) => JsonValue::Object {
            members: map
                .iter()
                .map(|(key, item)| JsonMember { key: key.clone(), value: to_json(item) })
                .collect(),
            text: value.to_string(),
        },
    }
}

fn parse_text(text: &str) -> Result<JsonValue, String> {
    serde_json::from_str::<serde_json::Value>(text)
        .map(|value| to_json(&value))
        .map_err(|error| error.to_string())
}

#[test]
fn parses_minimal_module() {
    let entry = TextEntry {
        path: "Example.ckan".to_string(),
        contents: r#"{
            "spec_version": 1,
            "identifier": "Example",
            "name": "Example Mod",
            "abstract": "Short description",
            "description": "Long description",
            "author": ["First", "Second"],
            "license": "MIT",
            "kind": "package",
            "release_status": "beta",
            "version": "1.2.3",
            "release_date": "2026-04-28T00:00:00Z",
            "download_size": 12345,
            "ksp_version_min": "1.12",
            "ksp_version_max": "1.12.5",
            "download": "https://example.invalid/mod.zip",
            "install": [
                { "find": "GameData", "install_to": "GameData" }
            ],
            "resources": {
                "homepage": "https://example.invalid"
            },
            "depends": [
                { "name": "ModuleManager" },
                { "name": "Harmony" }
            ],
            "recommends": [
                { "name": "ToolbarController" }
            ],
            "suggests": [],
            "conflicts": [
                { "name": "OldExample" }
            ],
            "provides": [ "ExampleVirtual" ]
        }"#
        .to_string(),
    };

    let doc = parse_text(&entry.contents);
    let parsed = match parse_module_entry(&entry, &doc) {
        Ok(module) => module,
        Err(_) => panic!("module should parse"),
    };

    assert_eq!(parsed.identifier.as_deref(), Some("Example"));
    assert_eq!(parsed.name.as_deref(), Some("Example Mod"));
    assert_eq!(parsed.version.as_deref(), Some("1.2.3"));
    assert_eq!(parsed.spec_version.as_deref(), Some("1"));
    assert_eq!(parsed.abstract_text.as_deref(), Some("Short description"));
    assert_eq!(parsed.description.as_deref(), Some("Long description"));
    assert_eq!(parsed.authors, vec!["First".to_string(), "Second".to_string()]);
    assert_eq!(parsed.licenses, vec!["MIT".to_string()]);
    assert_eq!(parsed.kind.as_deref(), Some("package"));
    assert_eq!(parsed.release_status, "testing");
    assert_eq!(parsed.release_date.as_deref(), Some("2026-04-28T00:00:00Z"));
    assert_eq!(parsed.download_size, Some(12345));
    assert_eq!(parsed.author_count, 2);
    assert_eq!(parsed.license_count, 1);
    assert_eq!(parsed.install_steps, 1);
    assert_eq!(parsed.resource_count, 1);
    assert!(parsed.has_download);
    assert_eq!(parsed.dependency_edges, 2);
    assert_eq!(parsed.recommendation_edges, 1);
    assert_eq!(parsed.suggestion_edges, 0);
    assert_eq!(parsed.conflict_edges, 1);
    assert_eq!(parsed.provided_identifiers, 1);
    assert_eq!(
        parsed.dependency_names,
        vec!["Harmony".to_string(), "ModuleManager".to_string()]
    );
    assert_eq!(parsed.recommendation_names, vec!["ToolbarController".to_string()]);
    assert_eq!(parsed.conflict_names, vec!["OldExample".to_string()]);
    assert_eq!(parsed.provided_names, vec!["ExampleVirtual".to_string()]);
}

#[test]
fn identifies_relevant_entries() {
    assert!(is_relevant_entry("ModuleManager.ckan"));
    assert!(is_relevant_entry("CKAN-meta/download_counts.json"));
    assert!(is_relevant_entry("CKAN-meta/builds.json"));
    assert!(is_relevant_entry("CKAN-meta/repositories.json"));
    assert!(!is_relevant_entry("README.md"));
}

#[test]
fn extracts_any_of_relationship_names_as_one_edge() {
    let value = parse_text(
        r#"[
            {
                "any_of": [
                    { "name": "FirstOption" },
                    { "name": "SecondOption" }
                ]
            },
            { "name": "RequiredMod" }
        ]"#,
    )
    .unwrap_or(JsonValue::Null);

    let names = relationship_names(Some(&value));

    assert_eq!(
        names,
        vec!["FirstOption|SecondOption".to_string(), "RequiredMod".to_string()]
    );
}

#[test]
fn release_status_aliases_match_ckan_values() {
    assert_eq!(normalize_release_status(None), "stable");
    assert_eq!(normalize_release_status(Some("beta")), "testing");
    assert_eq!(normalize_release_status(Some("alpha")), "development");
}

#[test]
fn unparseable_module_reports_the_entry_path_and_message() {
    let entry = TextEntry { path: "Broken.ckan".to_string(), contents: "{".to_string() };
    let doc = parse_text(&entry.contents);
    let message = match &doc {
        Err(message) => message.clone(),
        Ok(_) => String::new(),
    };
    match parse_module_entry(&entry, &doc) {
        Ok(_) => panic!("a broken document should not parse"),
        Err(error) => {
            assert_eq!(error.path, "Broken.ckan");
            assert_eq!(error.error, message);
        }
    }
}

#[test]
fn module_with_non_text_identifier_is_refused() {
    let entry = TextEntry { path: "Odd.ckan".to_string(), contents: r#"{"identifier": 5}"#.to_string() };
    let doc = parse_text(&entry.contents);
    match parse_module_entry(&entry, &doc) {
        Ok(_) => panic!("a numeric identifier should be refused"),
        Err(error) => {
            assert_eq!(error.path, "Odd.ckan");
            assert_eq!(error.error, "invalid type for field `identifier`: expected a string");
        }
    }
    let list = TextEntry { path: "List.ckan".to_string(), contents: "[1, 2]".to_string() };
    match parse_module_entry(&list, &parse_text(&list.contents)) {
        Ok(_) => panic!("a list is no module"),
        Err(error) => assert_eq!(error.error, "invalid type: expected a module object"),
    }
    let late = TextEntry {
        path: "Late.ckan".to_string(),
        contents: r#"{"identifier": "X", "release_date": false, "kind": 3}"#.to_string(),
    };
    match parse_module_entry(&late, &parse_text(&late.contents)) {
        Ok(_) => panic!("non-text fields are refused"),
        Err(error) => assert_eq!(error.error, "invalid type for field `kind`: expected a string"),
    }
}

#[test]
fn identifiers_are_trimmed_and_versions_rendered() {
    let entry = TextEntry {
        path: "Spaces.ckan".to_string(),
        contents: r#"{"identifier": "  Spaced  ", "version": 2, "release_status": " ALPHA ", "download_size": " 77 "}"#
            .to_string(),
    };
    let doc = parse_text(&entry.contents);
    let parsed = match parse_module_entry(&entry, &doc) {
        Ok(module) => module,
        Err(_) => panic!("module should parse"),
    };
    assert_eq!(parsed.identifier.as_deref(), Some("Spaced"));
    assert_eq!(parsed.version.as_deref(), Some("2"));
    assert_eq!(parsed.release_status, "development");
    assert_eq!(parsed.download_size, Some(77));
    assert!(!parsed.has_download);
}

#[test]
fn ckan_entries_are_the_dot_ckan_files() {
    let entry = |path: &str| TextEntry { path: path.to_string(), contents: String::new() };
    assert!(is_ckan_entry(&entry("CKAN-meta-master/Foo/Foo-1.0.ckan")));
    assert!(!is_ckan_entry(&entry("CKAN-meta-master/download_counts.json")));
    assert!(!is_ckan_entry(&entry("Foo.ckan.bak")));
}

#[test]
fn special_files_are_counted_from_their_text() {
    assert_eq!(count_json_object(r#"{"A": 1, "B": 2}"#), Some(2));
    assert_eq!(count_json_object("[1, 2]"), None);
    assert_eq!(count_json_object("{"), None);
    assert_eq!(count_json_named_array_or_object(r#"{"builds": {"1": "a", "2": "b", "3": "c"}}"#, "builds"), Some(3));
    assert_eq!(count_json_named_array_or_object("[1, 2, 3, 4]", "builds"), Some(4));
    assert_eq!(count_json_named_array_or_object("7", "builds"), None);
    let entries = vec![
        TextEntry { path: "A.ckan".to_string(), contents: "{}".to_string() },
        TextEntry { path: "meta/download_counts.json".to_string(), contents: r#"{"A": 5, "B": 9}"#.to_string() },
    ];
    let counts = parse_download_counts(&entries);
    assert_eq!(counts.identifiers, vec!["A".to_string(), "B".to_string()]);
    assert_eq!(counts.counts, vec![5, 9]);
}
