use std::time::{Duration, Instant};

use ckan_meta_rs::archive::{ArchiveLoad, TextEntry};
use ckan_meta_rs::compare::{compare_archives, module_fingerprint};
use ckan_meta_rs::display::{ksp_compat, option_count, truncate};
use ckan_meta_rs::export_file::{
    json_lines_records, summary_sums_within_limits, validate_export_file, validate_schema_v2_stability,
    ExportContents,
};
use ckan_meta_rs::model::{ArchiveParse, ModuleSummary};
use ckan_meta_rs::parser::parse_loaded_details;
use ckan_meta_rs::queries::{
    export_package, find_module_summaries, inspect_module, latest_module_summaries,
    module_summaries, relation_matches, relation_stats, unresolved_relations, RelationQueryError,
};

fn parse_entries(source: &str, files: &[(&str, &str)]) -> ArchiveParse {
    let entries = files
        .iter()
        .map(|(path, contents)| TextEntry { path: path.to_string(), contents: contents.to_string() })
        .collect::<Vec<_>>();
    let loaded = ArchiveLoad {
        archive_entries: files.len() + 1,
        entries,
        bytes_read: 99,
        elapsed: Duration::from_millis(5),
    };
    parse_loaded_details(source.to_string(), "zip", loaded, &Instant::now())
}

fn sample() -> ArchiveParse {
    parse_entries(
        "sample.zip",
        &[
            ("B-2.0.ckan", r#"{"identifier": "Beta", "name": "Beta Mod", "version": "2.0", "depends": [{"name": "Alpha"}], "provides": ["Virtual"]}"#),
            ("A-1.0.ckan", r#"{"identifier": "Alpha", "name": "Alpha Mod", "version": "1.0", "release_status": "testing"}"#),
            ("A-1.2.ckan", r#"{"identifier": "Alpha", "name": "Alpha Mod", "version": "1.2", "recommends": [{"any_of": [{"name": "virtual"}, {"name": "Missing"}]}]}"#),
            ("C-0.1.ckan", r#"{"identifier": "Gamma", "version": "0.1", "depends": [{"name": "Missing"}, {"name": "Absent|Missing"}], "ksp_version_min": "1.8"}"#),
            ("broken.ckan", "{ not json"),
            ("CKAN-meta/download_counts.json", r#"{"Alpha": 10, "Beta": "20", "Gamma": "x"}"#),
            ("CKAN-meta/builds.json", r#"{"builds": {"1": "a", "2": "b"}}"#),
            ("CKAN-meta/repositories.json", r#"[1, 2, 3]"#),
        ],
    )
}

#[test]
fn loaded_entries_become_a_sorted_parse_with_a_report() {
    let parsed = sample();
    let report = &parsed.report;
    assert_eq!(report.archive, "sample.zip");
    assert_eq!(report.archive_entries, 9);
    assert_eq!(report.relevant_entries, 8);
    assert_eq!(report.ckan_entries, 5);
    assert_eq!(report.parsed_modules, 4);
    assert_eq!(report.parse_errors, 1);
    assert_eq!(report.errors[0].path, "broken.ckan");
    assert_eq!(report.unique_identifiers, 3);
    assert_eq!(report.duplicate_identifiers, 1);
    assert_eq!(report.named_modules, 3);
    assert_eq!(report.dependency_edges, 3);
    assert_eq!(report.recommendation_edges, 1);
    assert_eq!(report.provided_identifiers, 1);
    assert_eq!(report.modules_with_ksp_version_min, 1);
    assert_eq!(report.download_counts, Some(3));
    assert_eq!(report.builds, Some(2));
    assert_eq!(report.repositories, Some(3));
    assert_eq!(report.bytes_read, 99);
    assert_eq!(report.read_ms, 5);
    assert_eq!(report.top_identifiers[0].identifier, "Alpha");
    assert_eq!(report.top_identifiers[0].versions, 2);
    assert_eq!(report.top_identifiers.len(), 3);
    let order = parsed.modules.iter().map(|m| m.path.as_str()).collect::<Vec<_>>();
    assert_eq!(order, vec!["A-1.0.ckan", "A-1.2.ckan", "B-2.0.ckan", "C-0.1.ckan"]);
    assert_eq!(parsed.download_counts.identifiers, vec!["Alpha".to_string(), "Beta".to_string()]);
    assert_eq!(parsed.download_counts.counts, vec![10, 20]);
}

#[test]
fn summaries_listings_and_searches() {
    let parsed = sample();
    assert_eq!(module_summaries(&parsed, Some(2)).len(), 2);
    assert_eq!(module_summaries(&parsed, None).len(), 4);

    let latest = latest_module_summaries(&parsed, None);
    let latest_paths = latest.iter().map(|m| m.path.as_str()).collect::<Vec<_>>();
    assert_eq!(latest_paths, vec!["A-1.2.ckan", "B-2.0.ckan", "C-0.1.ckan"]);

    let found = find_module_summaries(&parsed, "ALPHA", None);
    assert_eq!(found.len(), 2);
    assert!(found.iter().all(|m: &ModuleSummary| m.identifier.as_deref() == Some("Alpha")));
    assert_eq!(find_module_summaries(&parsed, "mod", Some(1)).len(), 1);
    assert_eq!(find_module_summaries(&parsed, "nothing", None).len(), 0);
}

#[test]
fn relation_lookups_and_statistics() {
    let parsed = sample();
    let matches = relation_matches(&parsed, "ALPHA", None);
    assert_eq!(matches.len(), 1);
    assert_eq!(matches[0].relationship, "depends");
    assert_eq!(matches[0].module.path, "B-2.0.ckan");

    let virtual_matches = relation_matches(&parsed, "Virtual", None);
    assert_eq!(virtual_matches.len(), 2);
    assert_eq!(virtual_matches[0].relationship, "recommends");
    assert_eq!(virtual_matches[0].target, "Missing|virtual");
    assert_eq!(virtual_matches[1].relationship, "provides");

    let stats = relation_stats(&parsed, 2);
    assert_eq!(stats.limit, 2);
    assert_eq!(stats.targets.len(), 2);
    assert_eq!(stats.targets[0].relationship, "depends");
    assert_eq!(stats.targets[0].target, "Absent|Missing");
    assert_eq!(stats.targets[0].count, 1);

    let unresolved = match unresolved_relations(&parsed, "Depends", 10) {
        Ok(report) => report,
        Err(_) => panic!("depends is a known relationship"),
    };
    assert_eq!(unresolved.relationship, "depends");
    let targets = unresolved.targets.iter().map(|t| t.target.as_str()).collect::<Vec<_>>();
    assert_eq!(targets, vec!["Absent|Missing", "Missing"]);
    match unresolved_relations(&parsed, "likes", 10) {
        Err(RelationQueryError::UnsupportedRelationship { relationship }) => assert_eq!(relationship, "likes"),
        Ok(_) => panic!("an unknown relationship should be refused"),
    }
}

#[test]
fn inspecting_an_identifier() {
    let parsed = sample();
    let inspection = inspect_module(&parsed, "alpha", None, true, None, None);
    assert_eq!(inspection.query, "alpha");
    assert_eq!(inspection.modules.len(), 1);
    assert_eq!(inspection.modules[0].version.as_deref(), Some("1.2"));
    assert_eq!(inspection.relationship_targets, vec!["alpha".to_string()]);
    assert_eq!(inspection.reverse_relationships.len(), 1);

    let beta = inspect_module(&parsed, "Beta", Some("2.0"), false, None, Some(1));
    assert_eq!(beta.version.as_deref(), Some("2.0"));
    assert_eq!(beta.relationship_targets, vec!["Beta".to_string(), "Virtual".to_string()]);
    assert_eq!(beta.reverse_relationships.len(), 1);

    let none = inspect_module(&parsed, "Beta", Some("9.9"), false, None, None);
    assert!(none.modules.is_empty());
}

#[test]
fn comparing_parses() {
    let left = sample();
    let right = sample();
    let same = compare_archives(&left, &right);
    assert!(same.matching);
    assert!(same.differences.is_empty());
    assert!(same.left_only_modules.is_empty());
    assert!(same.right_only_modules.is_empty());
    let itself = compare_archives(&left, &left);
    assert!(itself.matching);
    assert!(itself.left_only_modules.is_empty() && itself.right_only_modules.is_empty());

    let other = parse_entries("other.zip", &[("A-1.0.ckan", r#"{"identifier": "Alpha", "version": "1.0"}"#)]);
    let report = compare_archives(&left, &other);
    assert!(!report.matching);
    assert_eq!(report.left, "sample.zip");
    assert_eq!(report.differences[0].field, "relevant_entries");
    assert_eq!(report.differences[0].left, "8");
    assert_eq!(report.differences[0].right, "1");
    let last = report.differences.last().unwrap();
    assert_eq!(last.field, "module_fingerprints");
    assert_eq!(last.left, "4 unique, 4 sample-only");
    assert_eq!(last.right, "1 unique, 1 sample-only");
    assert!(report.differences.iter().any(|d| d.field == "download_counts" && d.right == "-"));
    assert!(module_fingerprint(&other.modules[0]).starts_with("id=Alpha|name=|version=1.0|spec=|abstract=false"));
}

#[test]
fn exports_validate_with_their_counts() {
    let package = export_package(sample());
    assert_eq!(package.schema_version, 1);
    assert_eq!(package.source, "sample.zip");
    assert_eq!(package.modules.len(), 4);
    let report = validate_export_file("export.json", &ExportContents::Package(package));
    assert_eq!(report.format, "json");
    assert_eq!(report.schema_version, Some(1));
    assert_eq!(report.modules, 4);
    assert_eq!(report.unique_identifiers, 3);
    assert_eq!(report.dependency_edges, 3);

    let lines = json_lines_records("{\"a\":1}\r\n\n  \n{\"b\":2}");
    assert_eq!(lines, vec!["{\"a\":1}".to_string(), "{\"b\":2}".to_string()]);
    let summaries = module_summaries(&sample(), Some(1));
    let report = validate_export_file("export.jsonl", &ExportContents::JsonLines(summaries));
    assert_eq!(report.format, "json-lines");
    assert_eq!(report.schema_version, None);
    assert_eq!(report.modules, 1);
}

#[test]
fn export_validation_agrees_with_the_parse_report() {
    let parsed = sample();
    let r = &parsed.report;
    let expected = (
        r.parsed_modules,
        r.unique_identifiers,
        r.missing_identifier,
        r.dependency_edges,
        r.recommendation_edges,
        r.suggestion_edges,
        r.conflict_edges,
        r.provided_identifiers,
    );
    let v = validate_export_file("export.json", &ExportContents::Package(export_package(parsed)));
    let actual = (
        v.modules,
        v.unique_identifiers,
        v.missing_identifier,
        v.dependency_edges,
        v.recommendation_edges,
        v.suggestion_edges,
        v.conflict_edges,
        v.provided_identifiers,
    );
    assert_eq!(actual, expected);
}

#[test]
fn report_texts() {
    assert_eq!(option_count(Some(12)), "12");
    assert_eq!(option_count(None), "-");
    assert_eq!(truncate("abcdef", 4), "abc~");
    assert_eq!(truncate("abc", 4), "abc");
    assert_eq!(truncate("abc", 0), "~");
    let parsed = sample();
    let gamma = module_summaries(&parsed, None).pop().unwrap();
    assert_eq!(ksp_compat(&gamma), "1.8+");
}

#[test]
fn edge_totals_are_checked_before_validation() {
    let mut summaries = module_summaries(&sample(), None);
    assert!(summary_sums_within_limits(&summaries));
    summaries[0].conflict_edges = usize::MAX;
    summaries[1].conflict_edges = 1;
    assert!(!summary_sums_within_limits(&summaries));
    for summary in summaries.iter_mut().skip(1) {
        summary.conflict_edges = 0;
    }
    assert!(summary_sums_within_limits(&summaries));
}

#[test]
fn comparing_the_other_way_swaps_the_result() {
    let left = sample();
    let other = parse_entries("other.zip", &[("A-1.0.ckan", r#"{"identifier": "Alpha", "version": "1.0"}"#)]);
    let forward = compare_archives(&left, &other);
    let backward = compare_archives(&other, &left);
    assert_eq!(backward.left, forward.right);
    assert_eq!(backward.right, forward.left);
    assert_eq!(backward.matching, forward.matching);
    assert_eq!(backward.left_only_modules, forward.right_only_modules);
    assert_eq!(backward.right_only_modules, forward.left_only_modules);
    assert_eq!(backward.differences.len(), forward.differences.len());
    for (b, f) in backward.differences.iter().zip(&forward.differences) {
        assert_eq!((&b.field, &b.left, &b.right), (&f.field, &f.right, &f.left));
    }
}

#[test]
fn latest_only_catalog_keeps_the_latest_flagged_records() {
    let full = ckan_meta_rs::queries::catalog_index(sample(), false);
    let latest = ckan_meta_rs::queries::catalog_index(sample(), true);
    let flagged = full
        .modules
        .iter()
        .filter(|m| m.is_latest_stable || m.is_latest_testing || m.is_latest_development)
        .map(|m| m.path.clone())
        .collect::<Vec<_>>();
    let kept = latest.modules.iter().map(|m| m.path.clone()).collect::<Vec<_>>();
    assert_eq!(kept, flagged);
    for m in &full.modules {
        assert!(latest.modules.iter().any(|l| l.identifier == m.identifier));
    }
}

#[test]
fn built_catalogs_pass_the_stability_check() {
    let nameless = parse_entries("nameless.zip", &[("A.ckan", r#"{"version": "1.0"}"#)]);
    let index = ckan_meta_rs::queries::catalog_index(nameless, false);
    assert!(index.modules.is_empty());
    assert!(validate_schema_v2_stability(&index).is_ok());
    for latest_only in [false, true] {
        assert!(validate_schema_v2_stability(&ckan_meta_rs::queries::catalog_index(sample(), latest_only)).is_ok());
    }
}

#[test]
fn latest_only_keeps_at_most_three_records_per_identifier() {
    let parsed = parse_entries(
        "many.zip",
        &[
            ("X-1.ckan", r#"{"identifier": "X", "version": "1", "release_status": "stable"}"#),
            ("X-2.ckan", r#"{"identifier": "X", "version": "2", "release_status": "testing"}"#),
            ("X-3.ckan", r#"{"identifier": "X", "version": "3", "release_status": "development"}"#),
            ("X-0.ckan", r#"{"identifier": "X", "version": "0", "release_status": "stable"}"#),
        ],
    );
    let latest = ckan_meta_rs::queries::catalog_index(parsed, true);
    let paths = latest.modules.iter().map(|m| m.path.clone()).collect::<Vec<_>>();
    assert_eq!(paths, vec!["X-1.ckan".to_string(), "X-2.ckan".to_string(), "X-3.ckan".to_string()]);
}
