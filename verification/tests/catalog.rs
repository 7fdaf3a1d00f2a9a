use ckan_meta_rs::catalog::{
    build_catalog_index, catalog_module, catalog_providers, catalog_relations_from_parsed,
    latest_paths_by_stability, version_counts_by_identifier, DownloadCounts, LatestPaths,
};
use ckan_meta_rs::export_file::{validate_catalog_index_file, CatalogValidationError};
use ckan_meta_rs::model::{
    ArchiveParse, CatalogModule, ParseReport, ParsedModule, RelationMatch,
};
use ckan_meta_rs::relations::collect_relation_matches;

fn test_module(identifier: &str, version: &str, path: &str) -> ParsedModule {
    ParsedModule {
        path: path.to_string(),
        identifier: Some(identifier.to_string()),
        name: Some(identifier.to_string()),
        version: Some(version.to_string()),
        spec_version: Some("v1.0".to_string()),
        abstract_text: None,
        description: None,
        authors: Vec::new(),
        licenses: Vec::new(),
        kind: None,
        release_status: "stable".to_string(),
        release_date: None,
        download_size: None,
        author_count: 0,
        license_count: 0,
        resource_count: 0,
        install_steps: 0,
        has_download: false,
        ksp_version: None,
        ksp_version_min: None,
        ksp_version_max: None,
        dependency_edges: 0,
        recommendation_edges: 0,
        suggestion_edges: 0,
        conflict_edges: 0,
        provided_identifiers: 0,
        dependency_names: Vec::new(),
        recommendation_names: Vec::new(),
        suggestion_names: Vec::new(),
        conflict_names: Vec::new(),
        provided_names: Vec::new(),
    }
}

fn empty_report(archive: &str) -> ParseReport {
    ParseReport {
        archive: archive.to_string(),
        archive_kind: "zip".to_string(),
        archive_entries: 0,
        relevant_entries: 0,
        ckan_entries: 0,
        parsed_modules: 0,
        named_modules: 0,
        versioned_modules: 0,
        spec_versioned_modules: 0,
        unique_identifiers: 0,
        duplicate_identifiers: 0,
        missing_identifier: 0,
        dependency_edges: 0,
        recommendation_edges: 0,
        suggestion_edges: 0,
        conflict_edges: 0,
        provided_identifiers: 0,
        modules_with_abstract: 0,
        modules_with_author: 0,
        modules_with_license: 0,
        modules_with_install: 0,
        modules_with_resources: 0,
        modules_with_download: 0,
        modules_with_ksp_version: 0,
        modules_with_ksp_version_min: 0,
        modules_with_ksp_version_max: 0,
        parse_errors: 0,
        download_counts: None,
        builds: None,
        repositories: None,
        bytes_read: 0,
        read_ms: 0,
        parse_ms: 0,
        elapsed_ms: 0,
        top_identifiers: Vec::new(),
        errors: Vec::new(),
    }
}

fn paths_of<'a>(latest: &'a LatestPaths, identifier: &str) -> &'a ckan_meta_rs::catalog::LatestModulePaths {
    let index = latest
        .identifiers
        .iter()
        .position(|id| id == identifier)
        .expect("identifier should have latest paths");
    &latest.paths[index]
}

#[test]
fn relation_lookup_matches_any_of_members() {
    let mut module = test_module("Example", "1.0", "Example.ckan");
    module.dependency_edges = 1;
    module.dependency_names = vec!["FirstOption|SecondOption".to_string()];
    let mut matches: Vec<RelationMatch> = Vec::new();

    collect_relation_matches(
        &mut matches,
        "depends",
        &vec!["secondoption".to_string()],
        &module.dependency_names,
        &module,
    );

    assert_eq!(matches.len(), 1);
    assert_eq!(matches[0].target, "FirstOption|SecondOption");
}

#[test]
fn catalog_index_modules_mark_latest_and_split_relationship_targets() {
    let mut old_module = test_module("Example", "1.0", "Example-1.0.ckan");
    old_module.dependency_names = vec!["FirstOption|SecondOption".to_string()];
    let mut new_module = test_module("Example", "2.0", "Example-2.0.ckan");
    new_module.provided_names = vec!["ExampleVirtual".to_string()];
    let modules = vec![old_module, new_module];
    let version_counts = version_counts_by_identifier(&modules);
    let latest_paths = latest_paths_by_stability(&modules);
    let download_counts = DownloadCounts { identifiers: vec!["Example".to_string()], counts: vec![42] };

    let catalog_modules = modules
        .iter()
        .filter_map(|module| catalog_module(module, &version_counts, &latest_paths, &download_counts))
        .collect::<Vec<_>>();
    let relations = modules
        .iter()
        .flat_map(catalog_relations_from_parsed)
        .collect::<Vec<_>>();
    let providers = catalog_modules
        .iter()
        .flat_map(catalog_providers)
        .collect::<Vec<_>>();

    assert_eq!(catalog_modules.len(), 2);
    assert_eq!(catalog_modules[0].download_count, Some(42));
    assert_eq!(catalog_modules[0].version_count, 2);
    assert!(!catalog_modules[0].is_latest);
    assert!(catalog_modules[1].is_latest);
    assert!(catalog_modules[1].is_latest_stable);
    assert!(catalog_modules[1].is_latest_testing);
    assert!(catalog_modules[1].is_latest_development);
    assert_eq!(
        catalog_modules[0].dependency_names,
        vec!["FirstOption".to_string(), "SecondOption".to_string()]
    );
    assert_eq!(relations.len(), 2);
    assert_eq!(relations[0].raw_target, "FirstOption|SecondOption");
    assert_eq!(relations[1].target, "SecondOption");
    assert_eq!(providers.len(), 1);
    assert_eq!(providers[0].provided, "ExampleVirtual");
}

#[test]
fn latest_paths_track_each_release_stability_tolerance() {
    let stable = test_module("Example", "1.0", "Example-1.0.ckan");
    let mut testing = test_module("Example", "2.0-beta", "Example-2.0-beta.ckan");
    testing.release_status = "testing".to_string();
    let mut development = test_module("Example", "3.0-alpha", "Example-3.0-alpha.ckan");
    development.release_status = "development".to_string();

    let latest = latest_paths_by_stability(&[stable, testing, development]);
    let paths = paths_of(&latest, "Example");

    assert_eq!(paths.stable.as_deref(), Some("Example-1.0.ckan"));
    assert_eq!(paths.testing.as_deref(), Some("Example-2.0-beta.ckan"));
    assert_eq!(paths.development.as_deref(), Some("Example-3.0-alpha.ckan"));
}

fn parse_of(modules: Vec<ParsedModule>) -> ArchiveParse {
    let mut report = empty_report("test.zip");
    report.parsed_modules = modules.len();
    ArchiveParse {
        report,
        modules,
        download_counts: DownloadCounts { identifiers: Vec::new(), counts: Vec::new() },
    }
}

fn mixed_modules() -> Vec<ParsedModule> {
    let stable = test_module("Example", "1.0", "Example-1.0.ckan");
    let mut testing = test_module("Example", "2.0-beta", "Example-2.0-beta.ckan");
    testing.release_status = "testing".to_string();
    let mut development = test_module("Example", "3.0-alpha", "Example-3.0-alpha.ckan");
    development.release_status = "development".to_string();
    let mut dev_only = test_module("Nightly", "0.1", "Nightly-0.1.ckan");
    dev_only.release_status = "development".to_string();
    dev_only.dependency_names = vec!["Example".to_string()];
    let nameless = ParsedModule { identifier: None, ..test_module("x", "1", "Nameless.ckan") };
    vec![stable, testing, development, dev_only, nameless]
}

#[test]
fn built_catalog_index_passes_validation() {
    for latest_only in [false, true] {
        let index = build_catalog_index(parse_of(mixed_modules()), latest_only, None);
        assert_eq!(index.schema_version, 2);
        let report = match validate_catalog_index_file("sidecar.json", &index) {
            Ok(report) => report,
            Err(_) => panic!("a built catalog index should validate"),
        };
        assert_eq!(report.unique_identifiers, 2);
        assert_eq!(report.missing_identifier, 0);
        assert_eq!(report.latest_modules, 2);
        assert_eq!(report.dependency_edges, 1);
        if latest_only {
            assert_eq!(report.modules, 4);
        } else {
            assert_eq!(report.modules, 4);
            assert_eq!(index.report.latest_modules, 2);
        }
    }
}

#[test]
fn latest_only_catalog_keeps_only_latest_candidates() {
    let mut modules = mixed_modules();
    modules.push(test_module("Example", "0.5", "Example-0.5.ckan"));
    let full = build_catalog_index(parse_of(mixed_modules()), false, None);
    let index = build_catalog_index(parse_of(modules), true, None);
    assert_eq!(full.modules.len(), 4);
    assert_eq!(index.modules.len(), 4);
    assert!(index.modules.iter().all(|m: &CatalogModule| m.path != "Example-0.5.ckan"));
    assert_eq!(index.generated_by, "ckan-meta-rs");
}

#[test]
fn catalog_validation_refuses_bad_indexes() {
    let mut index = build_catalog_index(parse_of(mixed_modules()), false, None);
    index.schema_version = 3;
    match validate_catalog_index_file("x", &index) {
        Err(CatalogValidationError::UnsupportedSchemaVersion { schema_version }) => assert_eq!(schema_version, 3),
        _ => panic!("schema 3 should be refused"),
    }

    let empty = build_catalog_index(parse_of(Vec::new()), false, None);
    assert!(matches!(validate_catalog_index_file("x", &empty), Err(CatalogValidationError::NoModules)));

    let mut index = build_catalog_index(parse_of(mixed_modules()), false, None);
    index.modules[0].release_status = "experimental".to_string();
    match validate_catalog_index_file("x", &index) {
        Err(CatalogValidationError::InvalidReleaseStatus { release_status, identifier, .. }) => {
            assert_eq!(release_status, "experimental");
            assert_eq!(identifier, "Example");
        }
        _ => panic!("an unknown release status should be refused"),
    }

    let mut index = build_catalog_index(parse_of(mixed_modules()), false, None);
    index.modules[0].is_latest = true;
    assert!(matches!(
        validate_catalog_index_file("x", &index),
        Err(CatalogValidationError::LatestFlagsDisagree { .. })
    ));

    let mut index = build_catalog_index(parse_of(mixed_modules()), false, None);
    index.modules[0].is_latest_stable = false;
    match validate_catalog_index_file("x", &index) {
        Err(CatalogValidationError::LatestCandidateCount { identifier, tolerance, expected, actual }) => {
            assert_eq!(identifier, "Example");
            assert_eq!(tolerance, "stable");
            assert_eq!(expected, 1);
            assert_eq!(actual, 0);
        }
        _ => panic!("a missing stable candidate should be refused"),
    }

    let mut index = build_catalog_index(parse_of(mixed_modules()), false, None);
    index.schema_version = 1;
    index.modules[0].release_status = "experimental".to_string();
    assert!(validate_catalog_index_file("x", &index).is_ok());
}
