//! The library's data: reports, parsed modules, summaries and catalog records.

use vstd::prelude::*;

use crate::catalog::DownloadCounts;
use crate::json::JsonValue;
use crate::order::{opt_view, views};
use crate::text::{text_copy, trim, trim_spec};

verus! {

pub struct DownloadReport {
    pub url: String,
    pub output: String,
    pub bytes_written: u64,
    pub elapsed_ms: u128,
}

pub struct ExtractionReport {
    pub source: String,
    pub destination: String,
    pub archive_kind: String,
    pub archive_entries: usize,
    pub relevant_entries: usize,
    pub bytes_written: u64,
    pub elapsed_ms: u128,
}

pub struct SyncReport {
    pub download: DownloadReport,
    pub extraction: ExtractionReport,
    pub export: Option<String>,
}

pub struct ParseReport {
    pub archive: String,
    pub archive_kind: String,
    pub archive_entries: usize,
    pub relevant_entries: usize,
    pub ckan_entries: usize,
    pub parsed_modules: usize,
    pub named_modules: usize,
    pub versioned_modules: usize,
    pub spec_versioned_modules: usize,
    pub unique_identifiers: usize,
    pub duplicate_identifiers: usize,
    pub missing_identifier: usize,
    pub dependency_edges: usize,
    pub recommendation_edges: usize,
    pub suggestion_edges: usize,
    pub conflict_edges: usize,
    pub provided_identifiers: usize,
    pub modules_with_abstract: usize,
    pub modules_with_author: usize,
    pub modules_with_license: usize,
    pub modules_with_install: usize,
    pub modules_with_resources: usize,
    pub modules_with_download: usize,
    pub modules_with_ksp_version: usize,
    pub modules_with_ksp_version_min: usize,
    pub modules_with_ksp_version_max: usize,
    pub parse_errors: usize,
    pub download_counts: Option<usize>,
    pub builds: Option<usize>,
    pub repositories: Option<usize>,
    pub bytes_read: u64,
    pub read_ms: u128,
    pub parse_ms: u128,
    pub elapsed_ms: u128,
    pub top_identifiers: Vec<IdentifierCount>,
    pub errors: Vec<ParseError>,
}

pub struct CompareReport {
    pub left: String,
    pub right: String,
    pub matching: bool,
    pub differences: Vec<CompareDifference>,
    pub left_only_modules: Vec<String>,
    pub right_only_modules: Vec<String>,
}

pub struct CompareDifference {
    pub field: String,
    pub left: String,
    pub right: String,
}

pub struct IdentifierCount {
    pub identifier: String,
    pub versions: usize,
}

pub struct ParseError {
    pub path: String,
    pub error: String,
}

/// The fields of a `.ckan` metadata file that the library reads.
pub struct MinimalModule<'a> {
    pub spec_version: Option<&'a JsonValue>,
    pub identifier: Option<String>,
    pub name: Option<String>,
    pub abstract_text: Option<String>,
    pub description: Option<String>,
    pub author: Option<&'a JsonValue>,
    pub license: Option<&'a JsonValue>,
    pub kind: Option<String>,
    pub release_status: Option<String>,
    pub version: Option<&'a JsonValue>,
    pub release_date: Option<String>,
    pub download_size: Option<&'a JsonValue>,
    pub ksp_version: Option<&'a JsonValue>,
    pub ksp_version_min: Option<&'a JsonValue>,
    pub ksp_version_max: Option<&'a JsonValue>,
    pub depends: Option<&'a JsonValue>,
    pub recommends: Option<&'a JsonValue>,
    pub suggests: Option<&'a JsonValue>,
    pub conflicts: Option<&'a JsonValue>,
    pub provides: Option<&'a JsonValue>,
    pub resources: Option<&'a JsonValue>,
    pub install: Option<&'a JsonValue>,
    pub download: Option<&'a JsonValue>,
}

pub struct ParsedModule {
    pub path: String,
    pub identifier: Option<String>,
    pub name: Option<String>,
    pub version: Option<String>,
    pub spec_version: Option<String>,
    pub abstract_text: Option<String>,
    pub description: Option<String>,
    pub authors: Vec<String>,
    pub licenses: Vec<String>,
    pub kind: Option<String>,
    pub release_status: String,
    pub release_date: Option<String>,
    pub download_size: Option<u64>,
    pub author_count: usize,
    pub license_count: usize,
    pub resource_count: usize,
    pub install_steps: usize,
    pub has_download: bool,
    pub ksp_version: Option<String>,
    pub ksp_version_min: Option<String>,
    pub ksp_version_max: Option<String>,
    pub dependency_edges: usize,
    pub recommendation_edges: usize,
    pub suggestion_edges: usize,
    pub conflict_edges: usize,
    pub provided_identifiers: usize,
    pub dependency_names: Vec<String>,
    pub recommendation_names: Vec<String>,
    pub suggestion_names: Vec<String>,
    pub conflict_names: Vec<String>,
    pub provided_names: Vec<String>,
}

pub struct ModuleSummary {
    pub path: String,
    pub identifier: Option<String>,
    pub name: Option<String>,
    pub version: Option<String>,
    pub spec_version: Option<String>,
    pub has_abstract: bool,
    pub author_count: usize,
    pub license_count: usize,
    pub resource_count: usize,
    pub install_steps: usize,
    pub has_download: bool,
    pub ksp_version: Option<String>,
    pub ksp_version_min: Option<String>,
    pub ksp_version_max: Option<String>,
    pub dependency_edges: usize,
    pub recommendation_edges: usize,
    pub suggestion_edges: usize,
    pub conflict_edges: usize,
    pub provided_identifiers: usize,
    pub dependency_names: Vec<String>,
    pub recommendation_names: Vec<String>,
    pub suggestion_names: Vec<String>,
    pub conflict_names: Vec<String>,
    pub provided_names: Vec<String>,
}

pub struct RelationMatch {
    pub relationship: String,
    pub target: String,
    pub module: ModuleSummary,
}

pub struct RelationStatsReport {
    pub archive: String,
    pub limit: usize,
    pub targets: Vec<RelationTargetCount>,
}

pub struct RelationTargetCount {
    pub relationship: String,
    pub target: String,
    pub count: usize,
}

pub struct UnresolvedRelationReport {
    pub archive: String,
    pub relationship: String,
    pub limit: usize,
    pub targets: Vec<UnresolvedRelationTarget>,
}

pub struct UnresolvedRelationTarget {
    pub target: String,
    pub count: usize,
}

pub struct ModuleInspection {
    pub query: String,
    pub version: Option<String>,
    pub relationship_targets: Vec<String>,
    pub modules: Vec<ModuleSummary>,
    pub reverse_relationships: Vec<RelationMatch>,
}

pub struct ExportPackage {
    pub schema_version: u32,
    pub source: String,
    pub report: ParseReport,
    pub modules: Vec<ModuleSummary>,
}

pub struct ExportValidationReport {
    pub input: String,
    pub format: String,
    pub schema_version: Option<u32>,
    pub modules: usize,
    pub unique_identifiers: usize,
    pub missing_identifier: usize,
    pub dependency_edges: usize,
    pub recommendation_edges: usize,
    pub suggestion_edges: usize,
    pub conflict_edges: usize,
    pub provided_identifiers: usize,
}

/// The CKAN-Linux catalog/search sidecar.
pub struct CatalogIndex {
    pub schema_version: u32,
    pub source: String,
    pub source_fingerprint: Option<String>,
    pub generated_by: String,
    pub report: CatalogIndexReport,
    pub modules: Vec<CatalogModule>,
    pub relations: Vec<CatalogRelation>,
    pub providers: Vec<CatalogProvider>,
}

pub struct CatalogIndexReport {
    pub parsed_modules: usize,
    pub unique_identifiers: usize,
    pub latest_modules: usize,
    pub dependency_edges: usize,
    pub recommendation_edges: usize,
    pub suggestion_edges: usize,
    pub conflict_edges: usize,
    pub provided_identifiers: usize,
    pub parse_errors: usize,
    pub read_ms: u128,
    pub parse_ms: u128,
    pub elapsed_ms: u128,
}

pub struct CatalogModule {
    pub path: String,
    pub identifier: String,
    pub name: String,
    pub version: Option<String>,
    pub spec_version: Option<String>,
    pub abstract_text: Option<String>,
    pub description: Option<String>,
    pub authors: Vec<String>,
    pub licenses: Vec<String>,
    pub kind: Option<String>,
    pub release_status: String,
    pub release_date: Option<String>,
    pub download_size: Option<u64>,
    pub download_count: Option<u64>,
    pub ksp_version: Option<String>,
    pub ksp_version_min: Option<String>,
    pub ksp_version_max: Option<String>,
    pub dependency_names: Vec<String>,
    pub recommendation_names: Vec<String>,
    pub suggestion_names: Vec<String>,
    pub conflict_names: Vec<String>,
    pub provided_names: Vec<String>,
    pub version_count: usize,
    pub is_latest: bool,
    pub is_latest_stable: bool,
    pub is_latest_testing: bool,
    pub is_latest_development: bool,
}

pub struct CatalogRelation {
    pub relationship: String,
    pub source_identifier: String,
    pub source_name: String,
    pub source_version: Option<String>,
    pub target: String,
    pub raw_target: String,
}

pub struct CatalogProvider {
    pub provided: String,
    pub identifier: String,
    pub name: String,
    pub version: Option<String>,
}

pub struct CatalogIndexValidationReport {
    pub input: String,
    pub schema_version: u32,
    pub modules: usize,
    pub unique_identifiers: usize,
    pub latest_modules: usize,
    pub relations: usize,
    pub providers: usize,
    pub missing_identifier: usize,
    pub dependency_edges: usize,
    pub recommendation_edges: usize,
    pub suggestion_edges: usize,
    pub conflict_edges: usize,
    pub provided_identifiers: usize,
}

/// An archive's parse report, its parsed modules and its download counts.
pub struct ArchiveParse {
    pub report: ParseReport,
    pub modules: Vec<ParsedModule>,
    pub download_counts: DownloadCounts,
}

/// Whether an optional text is present and not empty.
pub open spec fn has_text_spec(value: Option<String>) -> bool {
    match value {
        Some(text) => text@.len() > 0,
        None => false,
    }
}

pub fn has_text(value: &Option<String>) -> (r: bool)
    ensures
        r == has_text_spec(*value),
{
    match value {
        Some(text) => !text.as_str().is_empty(),
        None => false,
    }
}

/// The text without leading and trailing white space.
pub fn clean_string(value: String) -> (r: String)
    ensures
        r@ == trim_spec(value@),
{
    trim(value.as_str())
}

/// A copy of an optional text.
pub fn copy_opt(value: &Option<String>) -> (r: Option<String>)
    ensures
        opt_view(r) == opt_view(*value),
{
    match value {
        Some(text) => Some(text_copy(text.as_str())),
        None => None,
    }
}

/// A copy of a list of texts.
pub fn copy_texts(values: &Vec<String>) -> (r: Vec<String>)
    ensures
        views(r@) == views(values@),
{
    let mut r: Vec<String> = Vec::new();
    let mut i: usize = 0;
    while i < values.len()
        invariant
            i <= values.len(),
            views(r@) == views(values@.take(i as int)),
        decreases values.len() - i,
    {
        let ghost old_r = r@;
        let c = text_copy(values[i].as_str());
        r.push(c);
        assert(views(r@) =~= views(old_r).push(c@));
        assert(views(values@.take(i + 1)) =~= views(values@.take(i as int)).push(values@[i as int]@));
        i = i + 1;
    }
    assert(values@.take(values.len() as int) =~= values@);
    r
}

/// `summary` holds the summary fields of `module`.
pub open spec fn summarizes(summary: ModuleSummary, module: ParsedModule) -> bool {
    &&& summary.path@ == module.path@
    &&& opt_view(summary.identifier) == opt_view(module.identifier)
    &&& opt_view(summary.name) == opt_view(module.name)
    &&& opt_view(summary.version) == opt_view(module.version)
    &&& opt_view(summary.spec_version) == opt_view(module.spec_version)
    &&& summary.has_abstract == has_text_spec(module.abstract_text)
    &&& summary.author_count == module.author_count
    &&& summary.license_count == module.license_count
    &&& summary.resource_count == module.resource_count
    &&& summary.install_steps == module.install_steps
    &&& summary.has_download == module.has_download
    &&& opt_view(summary.ksp_version) == opt_view(module.ksp_version)
    &&& opt_view(summary.ksp_version_min) == opt_view(module.ksp_version_min)
    &&& opt_view(summary.ksp_version_max) == opt_view(module.ksp_version_max)
    &&& summary.dependency_edges == module.dependency_edges
    &&& summary.recommendation_edges == module.recommendation_edges
    &&& summary.suggestion_edges == module.suggestion_edges
    &&& summary.conflict_edges == module.conflict_edges
    &&& summary.provided_identifiers == module.provided_identifiers
    &&& views(summary.dependency_names@) == views(module.dependency_names@)
    &&& views(summary.recommendation_names@) == views(module.recommendation_names@)
    &&& views(summary.suggestion_names@) == views(module.suggestion_names@)
    &&& views(summary.conflict_names@) == views(module.conflict_names@)
    &&& views(summary.provided_names@) == views(module.provided_names@)
}

impl ModuleSummary {
    /// The summary of a parsed module.
    pub fn from(module: &ParsedModule) -> (r: Self)
        ensures
            summarizes(r, *module),
    {
        ModuleSummary {
            path: text_copy(module.path.as_str()),
            identifier: copy_opt(&module.identifier),
            name: copy_opt(&module.name),
            version: copy_opt(&module.version),
            spec_version: copy_opt(&module.spec_version),
            has_abstract: has_text(&module.abstract_text),
            author_count: module.author_count,
            license_count: module.license_count,
            resource_count: module.resource_count,
            install_steps: module.install_steps,
            has_download: module.has_download,
            ksp_version: copy_opt(&module.ksp_version),
            ksp_version_min: copy_opt(&module.ksp_version_min),
            ksp_version_max: copy_opt(&module.ksp_version_max),
            dependency_edges: module.dependency_edges,
            recommendation_edges: module.recommendation_edges,
            suggestion_edges: module.suggestion_edges,
            conflict_edges: module.conflict_edges,
            provided_identifiers: module.provided_identifiers,
            dependency_names: copy_texts(&module.dependency_names),
            recommendation_names: copy_texts(&module.recommendation_names),
            suggestion_names: copy_texts(&module.suggestion_names),
            conflict_names: copy_texts(&module.conflict_names),
            provided_names: copy_texts(&module.provided_names),
        }
    }
}

} // verus!
