//! Questions asked of a parsed archive: listings, searches and exports.

use vstd::prelude::*;

use crate::catalog::{build_catalog_index, catalog_providers_spec, catalog_records_of, catalog_relations_spec,
    download_counts_wf, generator_name, identifier_set, provider_views, relation_views};
use crate::counting::distinct_texts;
use crate::keymap::{find_text, key_lt, lemma_insert_ordered, search_key, strictly_ordered, tally_keys, StrictKey,
    TextPair};
use crate::model::{summarizes, ArchiveParse, CatalogIndex, ExportPackage, ModuleSummary, ParsedModule,
    ModuleInspection, RelationMatch, RelationStatsReport, RelationTargetCount, UnresolvedRelationReport,
    UnresolvedRelationTarget};
use crate::order::{compare_text, lemma_lex_asymmetric, lemma_lex_total, lemma_lex_transitive, lex_le, lex_lt,
    opt_view, sort_by_key, sort_dedup_strings, strictly_sorted, views, SortKey};
use crate::relations::{all_collected, collect_all_relation_matches, matches_agree};
use crate::text::{contains_spec, contains_text, eq_ignore_ascii_case, eq_ignore_ascii_case_spec, split_char,
    split_spec, to_lowercase, unicode_lowercase};
use crate::version::{compare_versions, compare_versions_spec};

verus! {

broadcast use vstd::seq_lib::group_to_multiset_ensures;

/// How many items a limit keeps of `n`.
pub open spec fn limited(n: nat, limit: Option<usize>) -> nat {
    match limit {
        Some(l) => if (l as nat) < n {
            l as nat
        } else {
            n
        },
        None => n,
    }
}

/// `r` summarizes the modules at the given positions, in order.
pub open spec fn summaries_of(r: Seq<ModuleSummary>, modules: Seq<ParsedModule>, positions: Seq<int>) -> bool {
    &&& r.len() == positions.len()
    &&& forall|k: int|
        0 <= k < r.len() ==> 0 <= positions[k] < modules.len() && summarizes(
            #[trigger] r[k],
            modules[positions[k]],
        )
}

/// The summaries of the modules at the given positions, at most `limit`.
fn summarize_positions(modules: &Vec<ParsedModule>, positions: &Vec<usize>, limit: Option<usize>) -> (r: Vec<
    ModuleSummary,
>)
    requires
        forall|k: int| 0 <= k < positions.len() ==> #[trigger] positions@[k] < modules.len(),
    ensures
        summaries_of(
            r@,
            modules@,
            positions@.take(limited(positions.len() as nat, limit) as int).map_values(|p: usize| p as int),
        ),
{
    let n = match limit {
        Some(l) => if l < positions.len() {
            l
        } else {
            positions.len()
        },
        None => positions.len(),
    };
    let ghost ps = positions@.take(n as int).map_values(|p: usize| p as int);
    let mut r: Vec<ModuleSummary> = Vec::new();
    let mut k: usize = 0;
    while k < n
        invariant
            k <= n,
            n <= positions.len(),
            ps == positions@.take(n as int).map_values(|p: usize| p as int),
            forall|j: int| 0 <= j < positions.len() ==> #[trigger] positions@[j] < modules.len(),
            r.len() == k,
            forall|j: int| 0 <= j < k ==> summarizes(#[trigger] r@[j], modules@[ps[j]]),
        decreases n - k,
    {
        let ghost before = r@;
        let s = ModuleSummary::from(&modules[positions[k]]);
        r.push(s);
        proof {
            assert forall|j: int| 0 <= j < k + 1 implies summarizes(#[trigger] r@[j], modules@[ps[j]]) by {
                if j < k {
                    assert(r@[j] == before[j]);
                }
            }
        }
        k = k + 1;
    }
    r
}

/// The summaries of the parsed modules, in order, at most `limit`.
pub fn module_summaries(parsed: &ArchiveParse, limit: Option<usize>) -> (r: Vec<ModuleSummary>)
    ensures
        r.len() == limited(parsed.modules.len() as nat, limit),
        forall|k: int| 0 <= k < r.len() ==> summarizes(#[trigger] r@[k], parsed.modules@[k]),
{
    let mut positions: Vec<usize> = Vec::new();
    let mut i: usize = 0;
    while i < parsed.modules.len()
        invariant
            i <= parsed.modules.len(),
            positions.len() == i,
            forall|j: int| 0 <= j < i ==> #[trigger] positions@[j] == j,
        decreases parsed.modules.len() - i,
    {
        positions.push(i);
        i = i + 1;
    }
    let r = summarize_positions(&parsed.modules, &positions, limit);
    proof {
        let ps = positions@.take(limited(positions.len() as nat, limit) as int).map_values(|p: usize| p as int);
        assert forall|k: int| 0 <= k < r.len() implies summarizes(#[trigger] r@[k], parsed.modules@[k]) by {
            assert(ps[k] == k);
        }
    }
    r
}

// ---------------------------------------------------------------------------
// The latest version of each identifier
// ---------------------------------------------------------------------------

/// The position of the latest module with identifier `id` (empty ones
/// included): a module replaces the current one when its version compares
/// greater.
pub open spec fn latest_of(modules: Seq<ParsedModule>, id: Seq<char>) -> Option<int>
    decreases modules.len(),
{
    if modules.len() == 0 {
        None
    } else {
        let current = latest_of(modules.drop_last(), id);
        let m = modules.last();
        if opt_view(m.identifier) == Some(id) && match current {
            None => true,
            Some(j) => compare_versions_spec(opt_view(m.version), opt_view(modules[j].version)) > 0,
        } {
            Some(modules.len() - 1)
        } else {
            current
        }
    }
}

proof fn lemma_latest_of_range(modules: Seq<ParsedModule>, id: Seq<char>)
    ensures
        latest_of(modules, id) matches Some(j) ==> 0 <= j < modules.len() && opt_view(modules[j].identifier)
            == Some(id),
        latest_of(modules, id) is Some <==> exists|j: int|
            0 <= j < modules.len() && opt_view(#[trigger] modules[j].identifier) == Some(id),
    decreases modules.len(),
{
    if modules.len() > 0 {
        let p = modules.drop_last();
        lemma_latest_of_range(p, id);
        if exists|j: int| 0 <= j < p.len() && opt_view(#[trigger] p[j].identifier) == Some(id) {
            let j = choose|j: int| 0 <= j < p.len() && opt_view(#[trigger] p[j].identifier) == Some(id);
            assert(modules[j] == p[j]);
        }
        if exists|j: int| 0 <= j < modules.len() && opt_view(#[trigger] modules[j].identifier) == Some(id) {
            let j = choose|j: int| 0 <= j < modules.len() && opt_view(#[trigger] modules[j].identifier) == Some(id);
            if j < modules.len() - 1 {
                assert(p[j] == modules[j]);
            }
        }
        if let Some(j) = latest_of(p, id) {
            assert(modules[j] == p[j]);
        }
    }
}

proof fn lemma_latest_of_step(modules: Seq<ParsedModule>, i: int, id: Seq<char>)
    requires
        0 <= i < modules.len(),
    ensures
        latest_of(modules.take(i + 1), id) == {
            let current = latest_of(modules.take(i), id);
            let m = modules[i];
            if opt_view(m.identifier) == Some(id) && match current {
                None => true,
                Some(j) => compare_versions_spec(opt_view(m.version), opt_view(modules[j].version)) > 0,
            } {
                Some(i)
            } else {
                current
            }
        },
{
    let t = modules.take(i + 1);
    assert(t.drop_last() =~= modules.take(i));
    assert(t.last() == modules[i]);
    lemma_latest_of_range(modules.take(i), id);
    if let Some(j) = latest_of(modules.take(i), id) {
        assert(t[j] == modules[j]);
    }
}

/// Whether some module has the identifier (empty ones included).
pub open spec fn carries_identifier(modules: Seq<ParsedModule>, id: Seq<char>) -> bool {
    exists|j: int| 0 <= j < modules.len() && opt_view(#[trigger] modules[j].identifier) == Some(id)
}

/// The latest version of each identifier, summarized, in identifier order,
/// at most `limit`.
pub fn latest_module_summaries(parsed: &ArchiveParse, limit: Option<usize>) -> (r: Vec<ModuleSummary>)
    ensures
        exists|ids: Seq<Seq<char>>|
            {
                &&& #[trigger] strictly_ordered::<String>(ids)
                &&& forall|id: Seq<char>| ids.contains(id) <==> carries_identifier(parsed.modules@, id)
                &&& r.len() == limited(ids.len(), limit)
                &&& forall|k: int|
                    0 <= k < r.len() ==> summarizes(
                        #[trigger] r@[k],
                        parsed.modules@[latest_of(parsed.modules@, ids[k])->0],
                    )
            },
{
    let modules = &parsed.modules;
    let mut keys: Vec<String> = Vec::new();
    let mut positions: Vec<usize> = Vec::new();
    let mut i: usize = 0;
    while i < modules.len()
        invariant
            i <= modules.len(),
            keys.len() == positions.len(),
            strictly_ordered::<String>(views(keys@)),
            forall|id: Seq<char>| views(keys@).contains(id) <==> carries_identifier(modules@.take(i as int), id),
            forall|k: int|
                0 <= k < keys.len() ==> latest_of(modules@.take(i as int), (#[trigger] keys@[k])@) == Some(
                    positions@[k] as int,
                ),
            forall|k: int| 0 <= k < positions.len() ==> #[trigger] positions@[k] < i,
        decreases modules.len() - i,
    {
        let ghost prefix = modules@.take(i as int);
        let ghost next = modules@.take(i + 1);
        proof {
            assert forall|id: Seq<char>| #[trigger] latest_of(next, id) == {
                let current = latest_of(prefix, id);
                let m = modules@[i as int];
                if opt_view(m.identifier) == Some(id) && match current {
                    None => true,
                    Some(j) => compare_versions_spec(opt_view(m.version), opt_view(modules@[j].version)) > 0,
                } {
                    Some(i as int)
                } else {
                    current
                }
            } by {
                lemma_latest_of_step(modules@, i as int, id);
            }
            assert forall|id: Seq<char>| #[trigger] carries_identifier(next, id) <==> (carries_identifier(prefix, id)
                || opt_view(modules@[i as int].identifier) == Some(id)) by {
                if carries_identifier(next, id) {
                    let j = choose|j: int| 0 <= j < next.len() && opt_view(#[trigger] next[j].identifier) == Some(id);
                    if j < i {
                        assert(prefix[j] == next[j]);
                    }
                }
                if carries_identifier(prefix, id) {
                    let j = choose|j: int| 0 <= j < prefix.len() && opt_view(#[trigger] prefix[j].identifier) == Some(id);
                    assert(next[j] == prefix[j]);
                }
                if opt_view(modules@[i as int].identifier) == Some(id) {
                    assert(next[i as int] == modules@[i as int]);
                }
            }
        }
        match &modules[i].identifier {
            Some(id) => {
                match search_key(&keys, id) {
                    Ok(k) => {
                        proof {
                            assert(keys@[k as int]@ == id@);
                            assert(views(keys@)[k as int] == id@);
                        }
                        let current = positions[k];
                        if compare_versions(&modules[i].version, &modules[current].version) > 0 {
                            let ghost old_positions = positions@;
                            positions.set(k, i);
                            proof {
                                assert forall|q: int| 0 <= q < keys.len() implies latest_of(next, (#[trigger] keys@[q])@)
                                    == Some(positions@[q] as int) by {
                                    if q != k {
                                        assert(positions@[q] == old_positions[q]);
                                        assert(views(keys@)[q] == keys@[q]@);
                                        if q < k {
                                            assert(key_lt::<String>(views(keys@)[q], views(keys@)[k as int]));
                                        } else {
                                            assert(key_lt::<String>(views(keys@)[k as int], views(keys@)[q]));
                                        }
                                    }
                                }
                            }
                        } else {
                            proof {
                                assert forall|q: int| 0 <= q < keys.len() implies latest_of(next, (#[trigger] keys@[q])@)
                                    == Some(positions@[q] as int) by {
                                    if q != k {
                                        assert(views(keys@)[q] == keys@[q]@);
                                        if q < k {
                                            assert(key_lt::<String>(views(keys@)[q], views(keys@)[k as int]));
                                        } else {
                                            assert(key_lt::<String>(views(keys@)[k as int], views(keys@)[q]));
                                        }
                                    }
                                }
                            }
                        }
                        proof {
                            assert forall|x: Seq<char>| views(keys@).contains(x) <==> carries_identifier(next, x) by {
                                if x == id@ {
                                    assert(views(keys@)[k as int] == x);
                                }
                            }
                        }
                    },
                    Err(p) => {
                        proof {
                            assert(!views(keys@).contains(id@)) by {
                                if views(keys@).contains(id@) {
                                    let q = choose|q: int| 0 <= q < views(keys@).len() && views(keys@)[q] == id@;
                                    assert(views(keys@)[q] == keys@[q]@);
                                }
                            }
                            assert(latest_of(prefix, id@) is None) by {
                                lemma_latest_of_range(prefix, id@);
                            }
                            lemma_insert_ordered::<String>(keys@, p as int, *id);
                        }
                        let ghost old_keys = keys@;
                        let ghost old_positions = positions@;
                        keys.insert(p, id.clone());
                        positions.insert(p, i);
                        proof {
                            assert(views(keys@) =~= views(old_keys).insert(p as int, id@));
                            assert forall|q: int| 0 <= q < keys.len() implies latest_of(next, (#[trigger] keys@[q])@)
                                == Some(positions@[q] as int) by {
                                if q != p {
                                    let oq = if q < p { q } else { q - 1 };
                                    assert(keys@[q] == old_keys[oq]);
                                    assert(positions@[q] == old_positions[oq]);
                                    assert(views(old_keys)[oq] == old_keys[oq]@);
                                    assert(views(old_keys).contains(old_keys[oq]@));
                                }
                            }
                            assert forall|x: Seq<char>| views(keys@).contains(x) <==> carries_identifier(next, x) by {
                                if views(keys@).contains(x) {
                                    let q = choose|q: int| 0 <= q < views(keys@).len() && views(keys@)[q] == x;
                                    if q < p {
                                        assert(views(old_keys)[q] == x);
                                    } else if q > p {
                                        assert(views(old_keys)[q - 1] == x);
                                    }
                                }
                                if views(old_keys).contains(x) {
                                    let q = choose|q: int| 0 <= q < views(old_keys).len() && views(old_keys)[q] == x;
                                    if q < p {
                                        assert(views(keys@)[q] == x);
                                    } else {
                                        assert(views(keys@)[q + 1] == x);
                                    }
                                }
                                if x == id@ {
                                    assert(views(keys@)[p as int] == x);
                                }
                            }
                            assert forall|q: int| 0 <= q < positions.len() implies #[trigger] positions@[q] < i + 1 by {
                                if q < p {
                                    assert(positions@[q] == old_positions[q]);
                                } else if q > p {
                                    assert(positions@[q] == old_positions[q - 1]);
                                }
                            }
                        }
                    },
                }
            },
            None => {},
        }
        i = i + 1;
    }
    proof {
        assert(modules@.take(modules.len() as int) =~= modules@);
    }
    let r = summarize_positions(modules, &positions, limit);
    proof {
        let ids = views(keys@);
        let ps = positions@.take(limited(positions.len() as nat, limit) as int).map_values(|p: usize| p as int);
        assert forall|k: int| 0 <= k < r.len() implies summarizes(
            #[trigger] r@[k],
            parsed.modules@[latest_of(parsed.modules@, ids[k])->0],
        ) by {
            assert(ids[k] == keys@[k]@);
            assert(ps[k] == positions@[k] as int);
        }
        assert(strictly_ordered::<String>(ids));
    }
    r
}

// ---------------------------------------------------------------------------
// Searching
// ---------------------------------------------------------------------------

/// An optional text matches a lowercased query when its Unicode lowercase
/// form contains the query.
pub open spec fn text_matches_spec(value: Option<String>, query: Seq<char>) -> bool {
    match value {
        Some(t) => contains_spec(unicode_lowercase(t@), query),
        None => false,
    }
}

/// A module matches a lowercased query by identifier, name or version.
pub open spec fn module_matches_spec(m: ParsedModule, query: Seq<char>) -> bool {
    text_matches_spec(m.identifier, query) || text_matches_spec(m.name, query) || text_matches_spec(
        m.version,
        query,
    )
}

pub fn text_matches(value: &Option<String>, query: &str) -> (r: bool)
    ensures
        r == text_matches_spec(*value, query@),
{
    match value {
        Some(t) => contains_text(to_lowercase(t.as_str()).as_str(), query),
        None => false,
    }
}

pub fn module_matches(module: &ParsedModule, query: &str) -> (r: bool)
    ensures
        r == module_matches_spec(*module, query@),
{
    text_matches(&module.identifier, query) || text_matches(&module.name, query) || text_matches(
        &module.version,
        query,
    )
}

/// The positions of the modules that match, in order.
pub open spec fn matching_positions(modules: Seq<ParsedModule>, query: Seq<char>) -> Seq<int>
    decreases modules.len(),
{
    if modules.len() == 0 {
        Seq::empty()
    } else {
        let rest = matching_positions(modules.drop_last(), query);
        if module_matches_spec(modules.last(), query) {
            rest.push(modules.len() - 1)
        } else {
            rest
        }
    }
}

/// The summaries of the modules whose identifier, name or version contains
/// the query, ignoring case, in order, at most `limit`.
pub fn find_module_summaries(parsed: &ArchiveParse, query: &str, limit: Option<usize>) -> (r: Vec<
    ModuleSummary,
>)
    ensures
        ({
            let found = matching_positions(parsed.modules@, unicode_lowercase(query@));
            summaries_of(r@, parsed.modules@, found.take(limited(found.len(), limit) as int))
        }),
{
    let query = to_lowercase(query);
    let modules = &parsed.modules;
    let mut positions: Vec<usize> = Vec::new();
    let mut i: usize = 0;
    while i < modules.len()
        invariant
            i <= modules.len(),
            positions@.map_values(|p: usize| p as int) == matching_positions(modules@.take(i as int), query@),
            forall|k: int| 0 <= k < positions.len() ==> #[trigger] positions@[k] < i,
        decreases modules.len() - i,
    {
        proof {
            assert(modules@.take(i + 1).drop_last() =~= modules@.take(i as int));
            assert(modules@.take(i + 1).last() == modules@[i as int]);
        }
        if module_matches(&modules[i], query.as_str()) {
            let ghost before = positions@;
            positions.push(i);
            proof {
                assert(positions@.map_values(|p: usize| p as int) =~= before.map_values(|p: usize| p as int).push(
                    i as int,
                ));
            }
        }
        i = i + 1;
    }
    proof {
        assert(modules@.take(modules.len() as int) =~= modules@);
    }
    let r = summarize_positions(modules, &positions, limit);
    proof {
        let found = positions@.map_values(|p: usize| p as int);
        assert(positions@.take(limited(positions.len() as nat, limit) as int).map_values(|p: usize| p as int)
            =~= found.take(limited(found.len(), limit) as int));
    }
    r
}

// ---------------------------------------------------------------------------
// Relationship lookups
// ---------------------------------------------------------------------------

/// The modules that point at `target` through a relationship (an
/// alternative of a relation name equal to it, ignoring case), each
/// relationship, name and module path once, in module order, at most `limit`.
pub fn relation_matches(parsed: &ArchiveParse, target: &str, limit: Option<usize>) -> (r: Vec<RelationMatch>)
    ensures
        ({
            let all = all_collected(parsed.modules@, seq![unicode_lowercase(target@)]);
            matches_agree(r@, all.take(limited(all.len(), limit) as int))
        }),
{
    let target_lower = to_lowercase(target);
    let targets = vec![target_lower];
    let mut matches = collect_all_relation_matches(&parsed.modules, &targets);
    proof {
        assert(views(targets@) =~= seq![unicode_lowercase(target@)]);
    }
    let ghost all = all_collected(parsed.modules@, views(targets@));
    match limit {
        Some(l) => {
            if l < matches.len() {
                matches.truncate(l);
            }
        },
        None => {},
    }
    proof {
        assert forall|k: int| 0 <= k < matches.len() implies crate::relations::match_agrees(
            #[trigger] matches@[k],
            all.take(limited(all.len(), limit) as int)[k],
        ) by {
        }
    }
    matches
}

// ---------------------------------------------------------------------------
// Exports
// ---------------------------------------------------------------------------

/// The export package of a parse: schema version 1, the archive as source,
/// the report, and the summary of every module.
pub fn export_package(parsed: ArchiveParse) -> (r: ExportPackage)
    ensures
        r.schema_version == 1,
        r.source@ == parsed.report.archive@,
        r.report == parsed.report,
        r.modules.len() == parsed.modules.len(),
        forall|k: int| 0 <= k < r.modules.len() ==> summarizes(#[trigger] r.modules@[k], parsed.modules@[k]),
{
    let modules = module_summaries(&parsed, None);
    ExportPackage { schema_version: 1, source: parsed.report.archive.clone(), report: parsed.report, modules }
}

/// The catalog sidecar of a parse, without a source fingerprint.
pub fn catalog_index(parsed: ArchiveParse, latest_only: bool) -> (r: CatalogIndex)
    requires
        download_counts_wf(parsed.download_counts),
    ensures
        r.schema_version == 2,
        r.source@ == parsed.report.archive@,
        r.source_fingerprint is None,
        r.generated_by@ == generator_name(),
        r.report.parsed_modules == parsed.report.parsed_modules,
        r.report.unique_identifiers == parsed.report.unique_identifiers,
        r.report.latest_modules == identifier_set(parsed.modules@).len(),
        r.report.dependency_edges == parsed.report.dependency_edges,
        r.report.recommendation_edges == parsed.report.recommendation_edges,
        r.report.suggestion_edges == parsed.report.suggestion_edges,
        r.report.conflict_edges == parsed.report.conflict_edges,
        r.report.provided_identifiers == parsed.report.provided_identifiers,
        r.report.parse_errors == parsed.report.parse_errors,
        r.report.read_ms == parsed.report.read_ms,
        r.report.parse_ms == parsed.report.parse_ms,
        r.report.elapsed_ms == parsed.report.elapsed_ms,
        catalog_records_of(r.modules@, parsed.modules@, latest_only, parsed.download_counts),
        relation_views(r.relations@) == catalog_relations_spec(parsed.modules@, parsed.modules@, latest_only),
        provider_views(r.providers@) == catalog_providers_spec(r.modules@),
{
    build_catalog_index(parsed, latest_only, None)
}

// ---------------------------------------------------------------------------
// Relationship target statistics
// ---------------------------------------------------------------------------

/// The relation names of a module for each relationship, in the order the
/// statistics walk them: depends, recommends, suggests, conflicts, provides.
pub open spec fn relationship_label(w: int) -> Seq<char> {
    if w == 0 {
        "depends"@
    } else if w == 1 {
        "recommends"@
    } else if w == 2 {
        "suggests"@
    } else if w == 3 {
        "conflicts"@
    } else {
        "provides"@
    }
}

pub open spec fn names_of(m: ParsedModule, w: int) -> Seq<String> {
    if w == 0 {
        m.dependency_names@
    } else if w == 1 {
        m.recommendation_names@
    } else if w == 2 {
        m.suggestion_names@
    } else if w == 3 {
        m.conflict_names@
    } else {
        m.provided_names@
    }
}

/// The (relationship, name) pairs of one module.
pub open spec fn module_relation_pairs(m: ParsedModule) -> Seq<(Seq<char>, Seq<char>)> {
    module_pairs_upto(m, 5)
}

pub open spec fn pairs_with(label: Seq<char>, names: Seq<Seq<char>>) -> Seq<(Seq<char>, Seq<char>)> {
    names.map_values(|n: Seq<char>| (label, n))
}

/// The (relationship, name) pairs of all modules, in order.
pub open spec fn relation_occurrences(modules: Seq<ParsedModule>) -> Seq<(Seq<char>, Seq<char>)>
    decreases modules.len(),
{
    if modules.len() == 0 {
        Seq::empty()
    } else {
        relation_occurrences(modules.drop_last()) + module_relation_pairs(modules.last())
    }
}

fn names_of_exec(m: &ParsedModule, w: usize) -> (r: &Vec<String>)
    ensures
        r@ == names_of(*m, w as int),
{
    if w == 0 {
        &m.dependency_names
    } else if w == 1 {
        &m.recommendation_names
    } else if w == 2 {
        &m.suggestion_names
    } else if w == 3 {
        &m.conflict_names
    } else {
        &m.provided_names
    }
}

fn relationship_label_exec(w: usize) -> (r: &'static str)
    ensures
        r@ == relationship_label(w as int),
{
    if w == 0 {
        "depends"
    } else if w == 1 {
        "recommends"
    } else if w == 2 {
        "suggests"
    } else if w == 3 {
        "conflicts"
    } else {
        "provides"
    }
}

/// Collects the (relationship, name) pairs of all modules.
fn collect_relation_occurrences(modules: &Vec<ParsedModule>) -> (r: Vec<TextPair>)
    ensures
        views(r@) == relation_occurrences(modules@),
{
    let mut out: Vec<TextPair> = Vec::new();
    let mut i: usize = 0;
    while i < modules.len()
        invariant
            i <= modules.len(),
            views(out@) == relation_occurrences(modules@.take(i as int)),
        decreases modules.len() - i,
    {
        let m = &modules[i];
        let ghost base = views(out@);
        let mut w: usize = 0;
        while w < 5
            invariant
                w <= 5,
                *m == modules@[i as int],
                views(out@) == base + module_pairs_upto(*m, w as int),
            decreases 5 - w,
        {
            let names = names_of_exec(m, w);
            let label = relationship_label_exec(w);
            let ghost before = views(out@);
            let mut k: usize = 0;
            while k < names.len()
                invariant
                    k <= names.len(),
                    names@ == names_of(*m, w as int),
                    label@ == relationship_label(w as int),
                    views(out@) == before + pairs_with(label@, views(names@).take(k as int)),
                decreases names.len() - k,
            {
                let ghost prev = out@;
                out.push(TextPair { first: crate::text::text_copy(label), second: names[k].clone() });
                proof {
                    assert(views(out@) =~= views(prev).push((label@, names@[k as int]@)));
                    assert(pairs_with(label@, views(names@).take(k + 1)) =~= pairs_with(label@, views(names@).take(k as int)).push((label@, names@[k as int]@)));
                    assert(views(out@) =~= before + pairs_with(label@, views(names@).take(k + 1)));
                }
                k = k + 1;
            }
            proof {
                assert(views(names@).take(names.len() as int) =~= views(names@));
                assert(module_pairs_upto(*m, w + 1) == module_pairs_upto(*m, w as int) + pairs_with(relationship_label(w as int), views(names_of(*m, w as int))));
                assert(views(out@) =~= base + module_pairs_upto(*m, w + 1));
            }
            w = w + 1;
        }
        proof {
            assert(modules@.take(i + 1).drop_last() =~= modules@.take(i as int));
            assert(modules@.take(i + 1).last() == *m);
        }
        i = i + 1;
    }
    proof {
        assert(modules@.take(modules.len() as int) =~= modules@);
    }
    out
}

/// The pairs of the first `w` relationships of a module.
pub open spec fn module_pairs_upto(m: ParsedModule, w: int) -> Seq<(Seq<char>, Seq<char>)>
    decreases w,
{
    if w <= 0 {
        Seq::empty()
    } else {
        module_pairs_upto(m, w - 1) + pairs_with(relationship_label(w - 1), views(names_of(m, w - 1)))
    }
}

impl View for RelationTargetCount {
    type V = (usize, Seq<char>, Seq<char>);

    open spec fn view(&self) -> (usize, Seq<char>, Seq<char>) {
        (self.count, self.relationship@, self.target@)
    }
}

/// Statistics list the most frequent first, then by relationship and target.
impl SortKey for RelationTargetCount {
    open spec fn key_le(a: (usize, Seq<char>, Seq<char>), b: (usize, Seq<char>, Seq<char>)) -> bool {
        a.0 > b.0 || (a.0 == b.0 && (lex_lt(a.1, b.1) || (a.1 == b.1 && lex_le(a.2, b.2))))
    }

    proof fn lemma_key_total(a: (usize, Seq<char>, Seq<char>), b: (usize, Seq<char>, Seq<char>)) {
        lemma_lex_total(a.1, b.1);
        lemma_lex_total(a.2, b.2);
    }

    proof fn lemma_key_transitive(
        a: (usize, Seq<char>, Seq<char>),
        b: (usize, Seq<char>, Seq<char>),
        c: (usize, Seq<char>, Seq<char>),
    ) {
        if lex_lt(a.1, b.1) && lex_lt(b.1, c.1) {
            lemma_lex_transitive(a.1, b.1, c.1);
        }
        if lex_lt(a.2, b.2) && lex_lt(b.2, c.2) {
            lemma_lex_transitive(a.2, b.2, c.2);
        }
    }

    fn key_le_exec(&self, other: &Self) -> (r: bool) {
        if self.count != other.count {
            return self.count > other.count;
        }
        let c = compare_text(self.relationship.as_str(), other.relationship.as_str());
        if c != 0 {
            return c < 0;
        }
        compare_text(self.target.as_str(), other.target.as_str()) <= 0
    }
}

impl StrictKey for RelationTargetCount {
    proof fn lemma_key_antisymmetric(a: (usize, Seq<char>, Seq<char>), b: (usize, Seq<char>, Seq<char>)) {
        lemma_lex_asymmetric(a.1, b.1);
        lemma_lex_asymmetric(a.2, b.2);
    }
}

/// `stats` lists each (relationship, name) pair of the modules once with
/// its number of occurrences, most frequent first, then by relationship
/// and name.
pub open spec fn relation_stats_spec(stats: Seq<(usize, Seq<char>, Seq<char>)>, modules: Seq<ParsedModule>) -> bool {
    let occ = relation_occurrences(modules);
    &&& strictly_ordered::<RelationTargetCount>(stats)
    &&& forall|k: int|
        0 <= k < stats.len() ==> occ.contains(((#[trigger] stats[k]).1, stats[k].2)) && stats[k].0
            == occ.to_multiset().count((stats[k].1, stats[k].2))
    &&& forall|p: (Seq<char>, Seq<char>)|
        occ.contains(p) ==> exists|k: int| 0 <= k < stats.len() && (#[trigger] stats[k]).1 == p.0 && stats[k].2 == p.1
}

/// Sorts counted items into strictly decreasing frequency order.
fn sort_strict<T: StrictKey>(items: Vec<T>) -> (r: Vec<T>)
    requires
        views(items@).no_duplicates(),
    ensures
        strictly_ordered::<T>(views(r@)),
        views(r@).to_multiset() == views(items@).to_multiset(),
{
    let ghost input = views(items@);
    proof {
        input.lemma_multiset_has_no_duplicates();
    }
    let r = sort_by_key(items);
    proof {
        let out = views(r@);
        assert forall|x: T::V| out.to_multiset().contains(x) implies out.to_multiset().count(x) == 1 by {
            assert(input.to_multiset().contains(x));
        }
        out.lemma_multiset_has_no_duplicates_conv();
        assert forall|a: int, b: int| 0 <= a < b < out.len() implies key_lt::<T>(#[trigger] out[a], #[trigger] out[b]) by {
            assert(T::key_le(out[a], out[b]));
        }
    }
    r
}

/// The most frequent relationship targets of the modules: each
/// (relationship, name) pair with its number of occurrences, most frequent
/// first, then by relationship and name, at most `limit`.
pub fn relation_stats(parsed: &ArchiveParse, limit: usize) -> (r: RelationStatsReport)
    ensures
        r.archive@ == parsed.report.archive@,
        r.limit == limit,
        exists|stats: Seq<(usize, Seq<char>, Seq<char>)>|
            {
                &&& #[trigger] relation_stats_spec(stats, parsed.modules@)
                &&& views(r.targets@) == stats.take(limited(stats.len(), Some(limit)) as int)
            },
{
    let occurrences = collect_relation_occurrences(&parsed.modules);
    let (keys, counts) = tally_keys(&occurrences);
    let mut items: Vec<RelationTargetCount> = Vec::new();
    let mut k: usize = 0;
    while k < keys.len()
        invariant
            k <= keys.len(),
            keys.len() == counts.len(),
            items.len() == k,
            forall|j: int| 0 <= j < k ==> (#[trigger] items@[j])@ == (counts@[j], keys@[j].first@, keys@[j].second@),
        decreases keys.len() - k,
    {
        let ghost before = items@;
        items.push(
            RelationTargetCount {
                relationship: keys[k].first.clone(),
                target: keys[k].second.clone(),
                count: counts[k],
            },
        );
        proof {
            assert forall|j: int| 0 <= j < k + 1 implies (#[trigger] items@[j])@ == (counts@[j], keys@[j].first@, keys@[j].second@) by {
                if j < k {
                    assert(items@[j] == before[j]);
                }
            }
        }
        k = k + 1;
    }
    let ghost input = views(items@);
    let ghost occ = relation_occurrences(parsed.modules@);
    proof {
        assert(input.no_duplicates()) by {
            assert forall|a: int, b: int| 0 <= a < input.len() && 0 <= b < input.len() && a != b implies input[a] != input[b] by {
                assert(input[a] == items@[a]@);
                assert(input[b] == items@[b]@);
                assert(views(keys@)[a] == keys@[a]@);
                assert(views(keys@)[b] == keys@[b]@);
                if a < b {
                    assert(key_lt::<TextPair>(views(keys@)[a], views(keys@)[b]));
                } else {
                    assert(key_lt::<TextPair>(views(keys@)[b], views(keys@)[a]));
                }
            }
        }
    }
    let mut sorted = sort_strict(items);
    proof {
        let out = views(sorted@);
        assert forall|k: int| 0 <= k < out.len() implies occ.contains(((#[trigger] out[k]).1, out[k].2)) && out[k].0
            == occ.to_multiset().count((out[k].1, out[k].2)) by {
            assert(out.to_multiset().contains(out[k]));
            assert(input.contains(out[k]));
            let j = choose|j: int| 0 <= j < input.len() && input[j] == out[k];
            assert(input[j] == items@[j]@);
            assert(views(keys@)[j] == keys@[j]@);
            assert(views(keys@).contains(keys@[j]@));
        }
        assert forall|p: (Seq<char>, Seq<char>)| occ.contains(p) implies exists|k: int| 0 <= k < out.len() && (#[trigger] out[k]).1 == p.0 && out[k].2 == p.1 by {
            assert(views(keys@).contains(p));
            let j = choose|j: int| 0 <= j < views(keys@).len() && views(keys@)[j] == p;
            assert(keys@[j]@ == p);
            assert(input[j] == items@[j]@);
            assert(input.to_multiset().contains(input[j]));
            assert(out.contains(input[j]));
            let k = choose|k: int| 0 <= k < out.len() && out[k] == input[j];
            assert(out[k].1 == p.0 && out[k].2 == p.1);
        }
        assert(relation_stats_spec(out, parsed.modules@));
    }
    let ghost full = views(sorted@);
    if limit < sorted.len() {
        sorted.truncate(limit);
    }
    proof {
        assert(views(sorted@) =~= full.take(limited(full.len(), Some(limit)) as int));
    }
    RelationStatsReport { archive: parsed.report.archive.clone(), limit, targets: sorted }
}

// ---------------------------------------------------------------------------
// Unresolved relationship targets
// ---------------------------------------------------------------------------

/// Why a relationship query was refused.
pub enum RelationQueryError {
    /// The relationship is none of depends, recommends, suggests, conflicts
    /// and provides.
    UnsupportedRelationship { relationship: String },
}

/// The relationship a (lowercased) name selects.
pub open spec fn relationship_index(rel: Seq<char>) -> Option<int> {
    if rel == "depends"@ {
        Some(0)
    } else if rel == "recommends"@ {
        Some(1)
    } else if rel == "suggests"@ {
        Some(2)
    } else if rel == "conflicts"@ {
        Some(3)
    } else if rel == "provides"@ {
        Some(4)
    } else {
        None
    }
}

fn relationship_index_exec(rel: &str) -> (r: Option<usize>)
    ensures
        match r {
            Some(w) => relationship_index(rel@) == Some(w as int) && w < 5,
            None => relationship_index(rel@) is None,
        },
{
    if crate::text::text_eq(rel, "depends") {
        Some(0)
    } else if crate::text::text_eq(rel, "recommends") {
        Some(1)
    } else if crate::text::text_eq(rel, "suggests") {
        Some(2)
    } else if crate::text::text_eq(rel, "conflicts") {
        Some(3)
    } else if crate::text::text_eq(rel, "provides") {
        Some(4)
    } else {
        None
    }
}

/// The lowercased identifiers and provided names of the modules.
pub open spec fn provided_names_lower(modules: Seq<ParsedModule>) -> Seq<Seq<char>>
    decreases modules.len(),
{
    if modules.len() == 0 {
        Seq::empty()
    } else {
        let m = modules.last();
        let own = match m.identifier {
            Some(id) => seq![unicode_lowercase(id@)],
            None => Seq::empty(),
        };
        provided_names_lower(modules.drop_last()) + own + views(m.provided_names@).map_values(
            |n: Seq<char>| unicode_lowercase(n),
        )
    }
}

/// A relation name is resolved when one of its `|` alternatives, lowercased,
/// is provided.
pub open spec fn target_resolved(target: Seq<char>, provided: Set<Seq<char>>) -> bool {
    exists|p: int|
        0 <= p < split_spec(target, '|').len() && provided.contains(
            unicode_lowercase(#[trigger] split_spec(target, '|')[p]),
        )
}

/// The relation names of relationship `w` that are not resolved, over all
/// modules, in order.
pub open spec fn unresolved_names(modules: Seq<ParsedModule>, w: int, provided: Set<Seq<char>>) -> Seq<Seq<char>>
    decreases modules.len(),
{
    if modules.len() == 0 {
        Seq::empty()
    } else {
        unresolved_names(modules.drop_last(), w, provided) + unresolved_list(views(names_of(modules.last(), w)), provided)
    }
}

/// The names of a list that are not resolved, in order.
pub open spec fn unresolved_list(names: Seq<Seq<char>>, provided: Set<Seq<char>>) -> Seq<Seq<char>>
    decreases names.len(),
{
    if names.len() == 0 {
        Seq::empty()
    } else if target_resolved(names.last(), provided) {
        unresolved_list(names.drop_last(), provided)
    } else {
        unresolved_list(names.drop_last(), provided).push(names.last())
    }
}

/// The unresolved names of the relationship that a lowercased name selects.
pub open spec fn unresolved_for(modules: Seq<ParsedModule>, rel: Seq<char>) -> Seq<Seq<char>> {
    match relationship_index(rel) {
        Some(w) => unresolved_names(modules, w, provided_names_lower(modules).to_set()),
        None => Seq::empty(),
    }
}

fn collect_provided(modules: &Vec<ParsedModule>) -> (r: Vec<String>)
    ensures
        views(r@) == provided_names_lower(modules@),
{
    let mut out: Vec<String> = Vec::new();
    let mut i: usize = 0;
    while i < modules.len()
        invariant
            i <= modules.len(),
            views(out@) == provided_names_lower(modules@.take(i as int)),
        decreases modules.len() - i,
    {
        let m = &modules[i];
        let ghost base = views(out@);
        let ghost own = match &m.identifier {
            Some(id) => seq![unicode_lowercase(id@)],
            None => Seq::<Seq<char>>::empty(),
        };
        match &m.identifier {
            Some(id) => {
                out.push(to_lowercase(id.as_str()));
            },
            None => {},
        }
        proof {
            assert(views(out@) =~= base + own);
        }
        let ghost with_own = views(out@);
        let mut k: usize = 0;
        while k < m.provided_names.len()
            invariant
                k <= m.provided_names.len(),
                views(out@) == with_own + views(m.provided_names@).take(k as int).map_values(
                    |n: Seq<char>| unicode_lowercase(n),
                ),
            decreases m.provided_names.len() - k,
        {
            let ghost prev = views(out@);
            out.push(to_lowercase(m.provided_names[k].as_str()));
            proof {
                assert(views(m.provided_names@).take(k + 1).map_values(|n: Seq<char>| unicode_lowercase(n))
                    =~= views(m.provided_names@).take(k as int).map_values(|n: Seq<char>| unicode_lowercase(n)).push(
                    unicode_lowercase(m.provided_names@[k as int]@),
                ));
                assert(views(out@) =~= prev.push(unicode_lowercase(m.provided_names@[k as int]@)));
            }
            k = k + 1;
        }
        proof {
            assert(views(m.provided_names@).take(m.provided_names.len() as int) =~= views(m.provided_names@));
            assert(modules@.take(i + 1).drop_last() =~= modules@.take(i as int));
            assert(modules@.take(i + 1).last() == *m);
            assert(views(out@) =~= provided_names_lower(modules@.take(i + 1)));
        }
        i = i + 1;
    }
    proof {
        assert(modules@.take(modules.len() as int) =~= modules@);
    }
    out
}

/// Whether a relation name is resolved by the provided names, given
/// strictly ordered.
fn target_is_resolved(target: &str, provided: &Vec<String>) -> (r: bool)
    requires
        strictly_ordered::<String>(views(provided@)),
    ensures
        r == target_resolved(target@, views(provided@).to_set()),
{
    let pieces = split_char(target, '|');
    let mut p: usize = 0;
    while p < pieces.len()
        invariant
            p <= pieces.len(),
            strictly_ordered::<String>(views(provided@)),
            pieces.len() == split_spec(target@, '|').len(),
            forall|q: int| 0 <= q < pieces.len() ==> #[trigger] pieces@[q]@ == split_spec(target@, '|')[q],
            forall|q: int| 0 <= q < p ==> !views(provided@).to_set().contains(
                unicode_lowercase(#[trigger] split_spec(target@, '|')[q]),
            ),
        decreases pieces.len() - p,
    {
        let lower = to_lowercase(pieces[p].as_str());
        match find_text(provided, &lower) {
            Some(k) => {
                proof {
                    assert(views(provided@)[k as int] == lower@);
                    assert(views(provided@).to_set().contains(lower@));
                }
                return true;
            },
            None => {
                proof {
                    assert(!views(provided@).to_set().contains(lower@)) by {
                        if views(provided@).contains(lower@) {
                            let k = choose|k: int| 0 <= k < views(provided@).len() && views(provided@)[k] == lower@;
                            assert(provided@[k]@ == lower@);
                        }
                    }
                }
            },
        }
        p = p + 1;
    }
    false
}

impl View for UnresolvedRelationTarget {
    type V = (usize, Seq<char>);

    open spec fn view(&self) -> (usize, Seq<char>) {
        (self.count, self.target@)
    }
}

/// Unresolved targets list the most frequent first, then by target.
impl SortKey for UnresolvedRelationTarget {
    open spec fn key_le(a: (usize, Seq<char>), b: (usize, Seq<char>)) -> bool {
        a.0 > b.0 || (a.0 == b.0 && lex_le(a.1, b.1))
    }

    proof fn lemma_key_total(a: (usize, Seq<char>), b: (usize, Seq<char>)) {
        lemma_lex_total(a.1, b.1);
    }

    proof fn lemma_key_transitive(a: (usize, Seq<char>), b: (usize, Seq<char>), c: (usize, Seq<char>)) {
        if lex_lt(a.1, b.1) && lex_lt(b.1, c.1) {
            lemma_lex_transitive(a.1, b.1, c.1);
        }
    }

    fn key_le_exec(&self, other: &Self) -> (r: bool) {
        if self.count != other.count {
            self.count > other.count
        } else {
            compare_text(self.target.as_str(), other.target.as_str()) <= 0
        }
    }
}

impl StrictKey for UnresolvedRelationTarget {
    proof fn lemma_key_antisymmetric(a: (usize, Seq<char>), b: (usize, Seq<char>)) {
        lemma_lex_asymmetric(a.1, b.1);
    }
}

/// `counts` lists each unresolved name once with its number of
/// occurrences, most frequent first, then by name.
pub open spec fn unresolved_counts_spec(counts: Seq<(usize, Seq<char>)>, names: Seq<Seq<char>>) -> bool {
    &&& strictly_ordered::<UnresolvedRelationTarget>(counts)
    &&& forall|k: int|
        0 <= k < counts.len() ==> names.contains((#[trigger] counts[k]).1) && counts[k].0
            == names.to_multiset().count(counts[k].1)
    &&& forall|n: Seq<char>| names.contains(n) ==> exists|k: int| 0 <= k < counts.len() && #[trigger] counts[k].1 == n
}

/// The relation names of one relationship that no module provides (by
/// identifier or provided name, ignoring case), with their numbers of
/// occurrences, most frequent first, at most `limit`. The relationship is
/// read lowercased; an unknown one is refused when there are modules.
pub fn unresolved_relations(parsed: &ArchiveParse, relationship: &str, limit: usize) -> (r: Result<
    UnresolvedRelationReport,
    RelationQueryError,
>)
    ensures
        ({
            let rel = unicode_lowercase(relationship@);
            &&& r is Err <==> parsed.modules.len() > 0 && relationship_index(rel) is None
            &&& r matches Err(e) ==> e->relationship@ == rel
            &&& r matches Ok(report) ==> {
                &&& report.archive@ == parsed.report.archive@
                &&& report.relationship@ == rel
                &&& report.limit == limit
                &&& exists|counts: Seq<(usize, Seq<char>)>|
                    {
                        &&& #[trigger] unresolved_counts_spec(counts, unresolved_for(parsed.modules@, rel))
                        &&& views(report.targets@) == counts.take(limited(counts.len(), Some(limit)) as int)
                    }
            }
        }),
{
    let rel = to_lowercase(relationship);
    let modules = &parsed.modules;
    let provided_all = collect_provided(modules);
    let provided = distinct_texts(&provided_all);
    let ghost pset = provided_names_lower(modules@).to_set();
    proof {
        assert(views(provided@).to_set() =~= pset);
    }
    let w = match relationship_index_exec(rel.as_str()) {
        Some(w) => w,
        None => {
            if modules.len() > 0 {
                return Err(RelationQueryError::UnsupportedRelationship { relationship: rel });
            }
            let report = UnresolvedRelationReport {
                archive: parsed.report.archive.clone(),
                relationship: rel,
                limit,
                targets: Vec::new(),
            };
            proof {
                let e = Seq::<(usize, Seq<char>)>::empty();
                assert(unresolved_counts_spec(e, unresolved_for(parsed.modules@, rel@)));
                assert(views(report.targets@) =~= e.take(limited(e.len(), Some(limit)) as int));
            }
            return Ok(report);
        },
    };
    let mut names: Vec<String> = Vec::new();
    let mut i: usize = 0;
    while i < modules.len()
        invariant
            i <= modules.len(),
            w < 5,
            strictly_ordered::<String>(views(provided@)),
            views(provided@).to_set() == pset,
            views(names@) == unresolved_names(modules@.take(i as int), w as int, pset),
        decreases modules.len() - i,
    {
        let m = &modules[i];
        let list = names_of_exec(m, w);
        let ghost base = views(names@);
        let mut k: usize = 0;
        while k < list.len()
            invariant
                k <= list.len(),
                list@ == names_of(*m, w as int),
                strictly_ordered::<String>(views(provided@)),
                views(provided@).to_set() == pset,
                views(names@) == base + unresolved_list(views(list@).take(k as int), pset),
            decreases list.len() - k,
        {
            let ghost prev = views(names@);
            proof {
                assert(views(list@).take(k + 1).drop_last() =~= views(list@).take(k as int));
                assert(views(list@).take(k + 1).last() == list@[k as int]@);
            }
            if !target_is_resolved(list[k].as_str(), &provided) {
                names.push(list[k].clone());
                proof {
                    assert(views(names@) =~= prev.push(list@[k as int]@));
                    assert(views(names@) =~= base + unresolved_list(views(list@).take(k + 1), pset));
                }
            }
            k = k + 1;
        }
        proof {
            assert(views(list@).take(list.len() as int) =~= views(list@));
            assert(modules@.take(i + 1).drop_last() =~= modules@.take(i as int));
            assert(modules@.take(i + 1).last() == *m);
        }
        i = i + 1;
    }
    proof {
        assert(modules@.take(modules.len() as int) =~= modules@);
    }
    let ghost all_names = views(names@);
    let (keys, counts) = tally_keys(&names);
    let mut items: Vec<UnresolvedRelationTarget> = Vec::new();
    let mut k: usize = 0;
    while k < keys.len()
        invariant
            k <= keys.len(),
            keys.len() == counts.len(),
            items.len() == k,
            forall|j: int| 0 <= j < k ==> (#[trigger] items@[j])@ == (counts@[j], keys@[j]@),
        decreases keys.len() - k,
    {
        let ghost before = items@;
        items.push(UnresolvedRelationTarget { target: keys[k].clone(), count: counts[k] });
        proof {
            assert forall|j: int| 0 <= j < k + 1 implies (#[trigger] items@[j])@ == (counts@[j], keys@[j]@) by {
                if j < k {
                    assert(items@[j] == before[j]);
                }
            }
        }
        k = k + 1;
    }
    let ghost input = views(items@);
    proof {
        assert(input.no_duplicates()) by {
            assert forall|a: int, b: int| 0 <= a < input.len() && 0 <= b < input.len() && a != b implies input[a] != input[b] by {
                assert(input[a] == items@[a]@);
                assert(input[b] == items@[b]@);
                assert(views(keys@)[a] == keys@[a]@);
                assert(views(keys@)[b] == keys@[b]@);
                if a < b {
                    assert(key_lt::<String>(views(keys@)[a], views(keys@)[b]));
                } else {
                    assert(key_lt::<String>(views(keys@)[b], views(keys@)[a]));
                }
            }
        }
    }
    let mut sorted = sort_strict(items);
    proof {
        let out = views(sorted@);
        assert forall|k: int| 0 <= k < out.len() implies all_names.contains((#[trigger] out[k]).1) && out[k].0
            == all_names.to_multiset().count(out[k].1) by {
            assert(out.to_multiset().contains(out[k]));
            assert(input.contains(out[k]));
            let j = choose|j: int| 0 <= j < input.len() && input[j] == out[k];
            assert(input[j] == items@[j]@);
            assert(views(keys@)[j] == keys@[j]@);
            assert(views(keys@).contains(keys@[j]@));
        }
        assert forall|n: Seq<char>| all_names.contains(n) implies exists|k: int| 0 <= k < out.len() && #[trigger] out[k].1 == n by {
            assert(views(keys@).contains(n));
            let j = choose|j: int| 0 <= j < views(keys@).len() && views(keys@)[j] == n;
            assert(input[j] == items@[j]@);
            assert(input.to_multiset().contains(input[j]));
            assert(out.contains(input[j]));
            let k = choose|k: int| 0 <= k < out.len() && out[k] == input[j];
            assert(out[k].1 == n);
        }
        assert(all_names == unresolved_for(parsed.modules@, rel@));
        assert(unresolved_counts_spec(out, all_names));
    }
    let ghost full = views(sorted@);
    if limit < sorted.len() {
        sorted.truncate(limit);
    }
    proof {
        assert(views(sorted@) =~= full.take(limited(full.len(), Some(limit)) as int));
    }
    Ok(UnresolvedRelationReport { archive: parsed.report.archive.clone(), relationship: rel, limit, targets: sorted })
}

// ---------------------------------------------------------------------------
// Inspecting one identifier
// ---------------------------------------------------------------------------

/// A module is inspected when its identifier equals the query ignoring ASCII
/// case and, when a version is asked for, its version is that version.
pub open spec fn inspect_selected(m: ParsedModule, identifier: Seq<char>, version: Option<Seq<char>>) -> bool {
    &&& m.identifier matches Some(id) && eq_ignore_ascii_case_spec(id@, identifier)
    &&& version matches Some(v) ==> opt_view(m.version) == Some(v)
}

/// The positions of the inspected modules, in order.
pub open spec fn inspect_candidates(modules: Seq<ParsedModule>, identifier: Seq<char>, version: Option<Seq<char>>) -> Seq<int>
    decreases modules.len(),
{
    if modules.len() == 0 {
        Seq::empty()
    } else {
        let rest = inspect_candidates(modules.drop_last(), identifier, version);
        if inspect_selected(modules.last(), identifier, version) {
            rest.push(modules.len() - 1)
        } else {
            rest
        }
    }
}

/// The candidate with the greatest version, the earliest among equals.
pub open spec fn best_candidate(modules: Seq<ParsedModule>, positions: Seq<int>) -> Option<int>
    decreases positions.len(),
{
    if positions.len() == 0 {
        None
    } else {
        let p = positions.last();
        match best_candidate(modules, positions.drop_last()) {
            None => Some(p),
            Some(b) => if compare_versions_spec(opt_view(modules[p].version), opt_view(modules[b].version)) > 0 {
                Some(p)
            } else {
                Some(b)
            },
        }
    }
}

/// The positions of the modules an inspection lists: the latest one, or
/// the candidates up to `limit`.
pub open spec fn inspected_positions(
    modules: Seq<ParsedModule>,
    identifier: Seq<char>,
    version: Option<Seq<char>>,
    latest: bool,
    limit: Option<usize>,
) -> Seq<int> {
    let c = inspect_candidates(modules, identifier, version);
    if latest {
        match best_candidate(modules, c) {
            Some(p) => seq![p],
            None => Seq::empty(),
        }
    } else {
        c.take(limited(c.len(), limit) as int)
    }
}

/// The names that the modules at the given positions provide, in order.
pub open spec fn chosen_provided(modules: Seq<ParsedModule>, chosen: Seq<int>) -> Seq<Seq<char>>
    decreases chosen.len(),
{
    if chosen.len() == 0 {
        Seq::empty()
    } else {
        chosen_provided(modules, chosen.drop_last()) + views(modules[chosen.last()].provided_names@)
    }
}

/// The query identifier and the names the inspected modules provide.
pub open spec fn inspection_targets(modules: Seq<ParsedModule>, chosen: Seq<int>, identifier: Seq<char>) -> Set<Seq<char>> {
    (seq![identifier] + chosen_provided(modules, chosen)).to_set()
}

proof fn lemma_candidates_range(modules: Seq<ParsedModule>, identifier: Seq<char>, version: Option<Seq<char>>)
    ensures
        forall|k: int|
            0 <= k < inspect_candidates(modules, identifier, version).len() ==> 0 <= #[trigger] inspect_candidates(
                modules,
                identifier,
                version,
            )[k] < modules.len(),
    decreases modules.len(),
{
    if modules.len() > 0 {
        lemma_candidates_range(modules.drop_last(), identifier, version);
        let rest = inspect_candidates(modules.drop_last(), identifier, version);
        let all = inspect_candidates(modules, identifier, version);
        assert forall|k: int| 0 <= k < all.len() implies 0 <= #[trigger] all[k] < modules.len() by {
            if k < rest.len() {
                assert(all[k] == rest[k]);
            }
        }
    }
}

proof fn lemma_best_candidate_range(modules: Seq<ParsedModule>, positions: Seq<int>)
    ensures
        best_candidate(modules, positions) matches Some(b) ==> positions.contains(b),
        positions.len() > 0 ==> best_candidate(modules, positions) is Some,
    decreases positions.len(),
{
    if positions.len() > 0 {
        lemma_best_candidate_range(modules, positions.drop_last());
        if let Some(b) = best_candidate(modules, positions.drop_last()) {
            let k = choose|k: int| 0 <= k < positions.drop_last().len() && positions.drop_last()[k] == b;
            assert(positions[k] == b);
        }
        assert(positions[positions.len() - 1] == positions.last());
    }
}

fn identifier_matches(module: &ParsedModule, identifier: &str) -> (r: bool)
    ensures
        r == (module.identifier matches Some(id) && eq_ignore_ascii_case_spec(id@, identifier@)),
{
    match &module.identifier {
        Some(id) => eq_ignore_ascii_case(id.as_str(), identifier),
        None => false,
    }
}

/// Inspects one identifier: its modules (matching ignoring ASCII case, of
/// the given version if any; the latest only, or up to `limit`), the sorted
/// targets that point at them (the identifier and the names they provide),
/// and the modules that point at those targets, up to `reverse_limit`.
pub fn inspect_module(
    parsed: &ArchiveParse,
    identifier: &str,
    version: Option<&str>,
    latest: bool,
    limit: Option<usize>,
    reverse_limit: Option<usize>,
) -> (r: ModuleInspection)
    ensures
        ({
            let v = match version {
                Some(x) => Some(x@),
                None => None,
            };
            let chosen = inspected_positions(parsed.modules@, identifier@, v, latest, limit);
            let lowers = views(r.relationship_targets@).map_values(|t: Seq<char>| unicode_lowercase(t));
            let all = all_collected(parsed.modules@, lowers);
            &&& r.query@ == identifier@
            &&& opt_view(r.version) == v
            &&& strictly_sorted(views(r.relationship_targets@))
            &&& views(r.relationship_targets@).to_set() == inspection_targets(parsed.modules@, chosen, identifier@)
            &&& summaries_of(r.modules@, parsed.modules@, chosen)
            &&& matches_agree(r.reverse_relationships@, all.take(limited(all.len(), reverse_limit) as int))
        }),
{
    let modules = &parsed.modules;
    let ghost v = match version {
        Some(x) => Some(x@),
        None => None,
    };
    let mut candidates: Vec<usize> = Vec::new();
    let mut i: usize = 0;
    while i < modules.len()
        invariant
            i <= modules.len(),
            candidates@.map_values(|p: usize| p as int) == inspect_candidates(modules@.take(i as int), identifier@, v),
            forall|k: int| 0 <= k < candidates.len() ==> #[trigger] candidates@[k] < i,
            v == match version {
                Some(x) => Some(x@),
                None => None::<Seq<char>>,
            },
        decreases modules.len() - i,
    {
        proof {
            assert(modules@.take(i + 1).drop_last() =~= modules@.take(i as int));
            assert(modules@.take(i + 1).last() == modules@[i as int]);
        }
        let m = &modules[i];
        let version_ok = match version {
            Some(x) => match &m.version {
                Some(mv) => crate::text::text_eq(mv.as_str(), x),
                None => false,
            },
            None => true,
        };
        if identifier_matches(m, identifier) && version_ok {
            let ghost before = candidates@;
            candidates.push(i);
            proof {
                assert(candidates@.map_values(|p: usize| p as int) =~= before.map_values(|p: usize| p as int).push(i as int));
            }
        }
        i = i + 1;
    }
    proof {
        assert(modules@.take(modules.len() as int) =~= modules@);
    }
    let ghost cand = candidates@.map_values(|p: usize| p as int);
    let mut chosen: Vec<usize> = Vec::new();
    if latest {
        if candidates.len() > 0 {
            let mut best = candidates[0];
            let mut k: usize = 1;
            proof {
                assert(cand.take(1).drop_last() =~= Seq::<int>::empty());
                assert(cand.take(1).len() == 1);
                assert(cand.take(1).last() == cand[0]);
                assert(cand[0] == candidates@[0] as int);
                assert(best_candidate(modules@, cand.take(1).drop_last()) is None);
                assert(best_candidate(modules@, cand.take(1)) == Some(best as int));
            }
            while k < candidates.len()
                invariant
                    1 <= k <= candidates.len(),
                    cand == candidates@.map_values(|p: usize| p as int),
                    forall|j: int| 0 <= j < candidates.len() ==> #[trigger] candidates@[j] < modules.len(),
                    best < modules.len(),
                    best_candidate(modules@, cand.take(k as int)) == Some(best as int),
                decreases candidates.len() - k,
            {
                proof {
                    assert(cand.take(k + 1).drop_last() =~= cand.take(k as int));
                    assert(cand.take(k + 1).last() == candidates@[k as int] as int);
                }
                let p = candidates[k];
                if compare_versions(&modules[p].version, &modules[best].version) > 0 {
                    best = p;
                }
                k = k + 1;
            }
            proof {
                assert(cand.take(candidates.len() as int) =~= cand);
            }
            chosen.push(best);
        } else {
            proof {
                assert(cand.len() == 0);
            }
        }
    } else {
        let n = match limit {
            Some(l) => if l < candidates.len() {
                l
            } else {
                candidates.len()
            },
            None => candidates.len(),
        };
        let mut k: usize = 0;
        while k < n
            invariant
                k <= n,
                n <= candidates.len(),
                chosen.len() == k,
                forall|j: int| 0 <= j < k ==> #[trigger] chosen@[j] == candidates@[j],
            decreases n - k,
        {
            chosen.push(candidates[k]);
            k = k + 1;
        }
    }
    let ghost chosen_spec = chosen@.map_values(|p: usize| p as int);
    proof {
        lemma_candidates_range(modules@, identifier@, v);
        if latest {
            assert(chosen_spec =~= inspected_positions(modules@, identifier@, v, latest, limit));
        } else {
            assert(chosen_spec =~= inspected_positions(modules@, identifier@, v, latest, limit));
        }
        assert forall|j: int| 0 <= j < chosen.len() implies #[trigger] chosen@[j] < modules.len() by {
            assert(chosen_spec[j] == chosen@[j] as int);
            if latest {
                lemma_best_candidate_range(modules@, cand);
            } else {
                assert(cand[j] == candidates@[j] as int);
            }
        }
    }
    let summaries = summarize_positions(modules, &chosen, None);
    // the targets: the identifier and the provided names of the listed modules
    let mut targets: Vec<String> = Vec::new();
    targets.push(crate::text::text_copy(identifier));
    proof {
        assert(views(targets@) =~= seq![identifier@] + chosen_provided(modules@, chosen_spec.take(0)));
    }
    let mut k: usize = 0;
    while k < chosen.len()
        invariant
            k <= chosen.len(),
            forall|j: int| 0 <= j < chosen.len() ==> #[trigger] chosen@[j] < modules.len(),
            chosen_spec == chosen@.map_values(|p: usize| p as int),
            views(targets@) == seq![identifier@] + chosen_provided(modules@, chosen_spec.take(k as int)),
        decreases chosen.len() - k,
    {
        let m = &modules[chosen[k]];
        let ghost base = views(targets@);
        let mut j: usize = 0;
        while j < m.provided_names.len()
            invariant
                j <= m.provided_names.len(),
                views(targets@) == base + views(m.provided_names@).take(j as int),
            decreases m.provided_names.len() - j,
        {
            let ghost prev = views(targets@);
            targets.push(m.provided_names[j].clone());
            proof {
                assert(views(targets@) =~= prev.push(m.provided_names@[j as int]@));
                assert(views(targets@) =~= base + views(m.provided_names@).take(j + 1));
            }
            j = j + 1;
        }
        proof {
            assert(views(m.provided_names@).take(m.provided_names.len() as int) =~= views(m.provided_names@));
            assert(chosen_spec.take(k + 1).drop_last() =~= chosen_spec.take(k as int));
            assert(chosen_spec.take(k + 1).last() == chosen@[k as int] as int);
            assert(views(targets@) =~= seq![identifier@] + chosen_provided(modules@, chosen_spec.take(k + 1)));
        }
        k = k + 1;
    }
    proof {
        assert(chosen_spec.take(chosen.len() as int) =~= chosen_spec);
    }
    let ghost all_targets = views(targets@);
    let relationship_targets = sort_dedup_strings(targets);
    proof {
        assert(views(relationship_targets@).to_set() == inspection_targets(modules@, chosen_spec, identifier@));
    }
    let mut lowers: Vec<String> = Vec::new();
    let mut k: usize = 0;
    while k < relationship_targets.len()
        invariant
            k <= relationship_targets.len(),
            views(lowers@) == views(relationship_targets@).take(k as int).map_values(|t: Seq<char>| unicode_lowercase(t)),
        decreases relationship_targets.len() - k,
    {
        let ghost prev = views(lowers@);
        lowers.push(to_lowercase(relationship_targets[k].as_str()));
        proof {
            assert(views(lowers@) =~= prev.push(unicode_lowercase(relationship_targets@[k as int]@)));
            assert(views(relationship_targets@).take(k + 1).map_values(|t: Seq<char>| unicode_lowercase(t)) =~= views(
                relationship_targets@,
            ).take(k as int).map_values(|t: Seq<char>| unicode_lowercase(t)).push(unicode_lowercase(relationship_targets@[k as int]@)));
        }
        k = k + 1;
    }
    proof {
        assert(views(relationship_targets@).take(relationship_targets.len() as int) =~= views(relationship_targets@));
    }
    let mut reverse = collect_all_relation_matches(modules, &lowers);
    let ghost all = all_collected(modules@, views(lowers@));
    match reverse_limit {
        Some(l) => {
            if l < reverse.len() {
                reverse.truncate(l);
            }
        },
        None => {},
    }
    let version_text = match version {
        Some(x) => Some(crate::text::text_copy(x)),
        None => None,
    };
    let r = ModuleInspection {
        query: crate::text::text_copy(identifier),
        version: version_text,
        relationship_targets,
        modules: summaries,
        reverse_relationships: reverse,
    };
    proof {
        let ps = chosen@.take(limited(chosen.len() as nat, None) as int).map_values(|p: usize| p as int);
        assert(ps =~= chosen_spec);
        assert forall|k: int| 0 <= k < r.reverse_relationships.len() implies crate::relations::match_agrees(
            #[trigger] r.reverse_relationships@[k],
            all.take(limited(all.len(), reverse_limit) as int)[k],
        ) by {
        }
    }
    r
}

proof fn lemma_matching_positions_members(modules: Seq<ParsedModule>, query: Seq<char>)
    ensures
        forall|i: int|
            #[trigger] matching_positions(modules, query).contains(i) <==> 0 <= i < modules.len()
                && module_matches_spec(modules[i], query),
        forall|a: int, b: int|
            0 <= a < b < matching_positions(modules, query).len() ==> #[trigger] matching_positions(
                modules,
                query,
            )[a] < #[trigger] matching_positions(modules, query)[b],
    decreases modules.len(),
{
    if modules.len() > 0 {
        let p = modules.drop_last();
        lemma_matching_positions_members(p, query);
        let rest = matching_positions(p, query);
        let all = matching_positions(modules, query);
        let n = modules.len() - 1;
        assert forall|i: int| #[trigger] all.contains(i) <==> 0 <= i < modules.len() && module_matches_spec(
            modules[i],
            query,
        ) by {
            if 0 <= i < n {
                assert(modules[i] == p[i]);
            }
            if rest.contains(i) {
                let k = choose|k: int| 0 <= k < rest.len() && rest[k] == i;
                assert(all[k] == i);
            }
            if all.contains(i) {
                let k = choose|k: int| 0 <= k < all.len() && all[k] == i;
                if k < rest.len() {
                    assert(all[k] == rest[k]);
                    assert(rest.contains(i));
                }
            }
            if i == n && module_matches_spec(modules[i], query) {
                assert(all[rest.len() as int] == n);
            }
        }
        assert forall|a: int, b: int| 0 <= a < b < all.len() implies #[trigger] all[a] < #[trigger] all[b] by {
            assert(all[a] == rest[a]);
            if b < rest.len() {
                assert(all[b] == rest[b]);
            } else {
                assert(rest.contains(rest[a]));
            }
        }
    }
}

/// Searching finds exactly the modules whose identifier, name or version
/// contains the query, both lowercased, in module order: position `i` is
/// found exactly when one of the three holds the query.
pub proof fn lemma_find_matches_identifier_name_or_version(modules: Seq<ParsedModule>, query: Seq<char>, i: int)
    requires
        0 <= i < modules.len(),
    ensures
        matching_positions(modules, unicode_lowercase(query)).contains(i) <==> {
            let q = unicode_lowercase(query);
            ||| modules[i].identifier matches Some(t) && contains_spec(unicode_lowercase(t@), q)
            ||| modules[i].name matches Some(t) && contains_spec(unicode_lowercase(t@), q)
            ||| modules[i].version matches Some(t) && contains_spec(unicode_lowercase(t@), q)
        },
        forall|a: int, b: int|
            0 <= a < b < matching_positions(modules, unicode_lowercase(query)).len() ==> #[trigger] matching_positions(
                modules,
                unicode_lowercase(query),
            )[a] < #[trigger] matching_positions(modules, unicode_lowercase(query))[b],
{
    lemma_matching_positions_members(modules, unicode_lowercase(query));
}

/// Some module carries the lowercased name: as its identifier or among the
/// names it provides, lowercased.
pub open spec fn provided_by_some_module(modules: Seq<ParsedModule>, name: Seq<char>) -> bool {
    exists|j: int|
        0 <= j < modules.len() && {
            ||| (#[trigger] modules[j]).identifier matches Some(id) && unicode_lowercase(id@) == name
            ||| exists|q: int|
                0 <= q < modules[j].provided_names.len() && unicode_lowercase(modules[j].provided_names@[q]@)
                    == name
        }
}

/// One of the `|` alternatives of a relation name is provided by some module.
pub open spec fn some_alternative_provided(modules: Seq<ParsedModule>, target: Seq<char>) -> bool {
    exists|p: int|
        0 <= p < split_spec(target, '|').len() && provided_by_some_module(
            modules,
            unicode_lowercase(#[trigger] split_spec(target, '|')[p]),
        )
}

proof fn lemma_provided_names_lower_members(modules: Seq<ParsedModule>, name: Seq<char>)
    ensures
        provided_names_lower(modules).contains(name) <==> provided_by_some_module(modules, name),
    decreases modules.len(),
{
    if modules.len() > 0 {
        let p = modules.drop_last();
        let m = modules.last();
        lemma_provided_names_lower_members(p, name);
        let own = match m.identifier {
            Some(id) => seq![unicode_lowercase(id@)],
            None => Seq::empty(),
        };
        let names = views(m.provided_names@).map_values(|n: Seq<char>| unicode_lowercase(n));
        let all = provided_names_lower(p) + own + names;
        assert(all == provided_names_lower(modules));
        if all.contains(name) {
            let k = choose|k: int| 0 <= k < all.len() && all[k] == name;
            let a = provided_names_lower(p).len();
            if k < a {
                assert(provided_names_lower(p)[k] == name);
                assert(provided_names_lower(p).contains(name));
                let j = choose|j: int|
                    0 <= j < p.len() && {
                        ||| (#[trigger] p[j]).identifier matches Some(id) && unicode_lowercase(id@) == name
                        ||| exists|q: int|
                            0 <= q < p[j].provided_names.len() && unicode_lowercase(p[j].provided_names@[q]@)
                                == name
                    };
                assert(modules[j] == p[j]);
            } else if k < a + own.len() {
                assert(modules[modules.len() - 1] == m);
            } else {
                let q = k - a - own.len();
                assert(names[q] == unicode_lowercase(m.provided_names@[q]@));
                assert(modules[modules.len() - 1] == m);
            }
        }
        if provided_by_some_module(modules, name) {
            let j = choose|j: int|
                0 <= j < modules.len() && {
                    ||| (#[trigger] modules[j]).identifier matches Some(id) && unicode_lowercase(id@) == name
                    ||| exists|q: int|
                        0 <= q < modules[j].provided_names.len() && unicode_lowercase(
                            modules[j].provided_names@[q]@,
                        ) == name
                };
            if j < p.len() {
                assert(p[j] == modules[j]);
                assert(provided_by_some_module(p, name));
                let k = choose|k: int| 0 <= k < provided_names_lower(p).len() && provided_names_lower(p)[k] == name;
                assert(all[k] == name);
            } else {
                assert(modules[j] == m);
                let a = provided_names_lower(p).len();
                if m.identifier matches Some(id) && unicode_lowercase(id@) == name {
                    assert(all[a as int] == name);
                } else {
                    let q = choose|q: int|
                        0 <= q < m.provided_names.len() && unicode_lowercase(m.provided_names@[q]@) == name;
                    assert(all[a + own.len() as int + q] == name);
                }
            }
        }
    } else {
        assert(!provided_names_lower(modules).contains(name));
    }
}

proof fn lemma_unresolved_list_members(names: Seq<Seq<char>>, provided: Set<Seq<char>>, x: Seq<char>)
    ensures
        unresolved_list(names, provided).contains(x) <==> names.contains(x) && !target_resolved(x, provided),
    decreases names.len(),
{
    if names.len() > 0 {
        let p = names.drop_last();
        lemma_unresolved_list_members(p, provided, x);
        let rest = unresolved_list(p, provided);
        if names.contains(x) {
            let k = choose|k: int| 0 <= k < names.len() && names[k] == x;
            if k < p.len() {
                assert(p[k] == x);
            }
        }
        if p.contains(x) {
            let k = choose|k: int| 0 <= k < p.len() && p[k] == x;
            assert(names[k] == x);
        }
        if !target_resolved(names.last(), provided) {
            let all = rest.push(names.last());
            if rest.contains(x) {
                let k = choose|k: int| 0 <= k < rest.len() && rest[k] == x;
                assert(all[k] == x);
            }
            if all.contains(x) {
                let k = choose|k: int| 0 <= k < all.len() && all[k] == x;
                if k < rest.len() {
                    assert(rest[k] == x);
                }
            }
            assert(all[rest.len() as int] == names.last());
        }
        assert(names[names.len() - 1] == names.last());
    }
}

proof fn lemma_unresolved_names_members(modules: Seq<ParsedModule>, w: int, provided: Set<Seq<char>>, x: Seq<char>)
    ensures
        unresolved_names(modules, w, provided).contains(x) <==> (exists|j: int|
            0 <= j < modules.len() && views(names_of(#[trigger] modules[j], w)).contains(x)) && !target_resolved(
            x,
            provided,
        ),
    decreases modules.len(),
{
    if modules.len() > 0 {
        let p = modules.drop_last();
        let m = modules.last();
        lemma_unresolved_names_members(p, w, provided, x);
        lemma_unresolved_list_members(views(names_of(m, w)), provided, x);
        let a = unresolved_names(p, w, provided);
        let b = unresolved_list(views(names_of(m, w)), provided);
        let all = a + b;
        if all.contains(x) {
            let k = choose|k: int| 0 <= k < all.len() && all[k] == x;
            if k < a.len() {
                assert(a[k] == x);
                let j = choose|j: int| 0 <= j < p.len() && views(names_of(#[trigger] p[j], w)).contains(x);
                assert(modules[j] == p[j]);
            } else {
                assert(b[k - a.len()] == x);
                assert(modules[modules.len() - 1] == m);
            }
        }
        if (exists|j: int| 0 <= j < modules.len() && views(names_of(#[trigger] modules[j], w)).contains(x))
            && !target_resolved(x, provided) {
            let j = choose|j: int| 0 <= j < modules.len() && views(names_of(#[trigger] modules[j], w)).contains(x);
            if j < p.len() {
                assert(p[j] == modules[j]);
                let k = choose|k: int| 0 <= k < a.len() && a[k] == x;
                assert(all[k] == x);
            } else {
                assert(modules[j] == m);
                let k = choose|k: int| 0 <= k < b.len() && b[k] == x;
                assert(all[a.len() + k] == x);
            }
        }
    }
}

/// The unresolved targets of a relationship are exactly the relation names
/// of that relationship, over all modules, none of whose `|` alternatives,
/// lowercased, is some module's lowercased identifier or one of the names
/// it provides.
pub proof fn lemma_unresolved_targets(modules: Seq<ParsedModule>, rel: Seq<char>, w: int, x: Seq<char>)
    requires
        relationship_index(rel) == Some(w),
    ensures
        unresolved_for(modules, rel).contains(x) <==> (exists|j: int|
            0 <= j < modules.len() && views(names_of(#[trigger] modules[j], w)).contains(x))
            && !some_alternative_provided(modules, x),
{
    let provided = provided_names_lower(modules).to_set();
    lemma_unresolved_names_members(modules, w, provided, x);
    assert forall|p: int| 0 <= p < split_spec(x, '|').len() implies provided.contains(
        unicode_lowercase(#[trigger] split_spec(x, '|')[p]),
    ) == provided_by_some_module(modules, unicode_lowercase(split_spec(x, '|')[p])) by {
        lemma_provided_names_lower_members(modules, unicode_lowercase(split_spec(x, '|')[p]));
    }
    if target_resolved(x, provided) {
        let p = choose|p: int|
            0 <= p < split_spec(x, '|').len() && provided.contains(unicode_lowercase(#[trigger] split_spec(x, '|')[p]));
        assert(provided_by_some_module(modules, unicode_lowercase(split_spec(x, '|')[p])));
    }
    if some_alternative_provided(modules, x) {
        let p = choose|p: int|
            0 <= p < split_spec(x, '|').len() && provided_by_some_module(
                modules,
                unicode_lowercase(#[trigger] split_spec(x, '|')[p]),
            );
        assert(provided.contains(unicode_lowercase(split_spec(x, '|')[p])));
    }
}

} // verus!
