//! What holds of every catalog index that `build_catalog_index` produces.

use vstd::prelude::*;

use crate::catalog::{
    catalog_entry_of, catalog_records_of, catalog_sources, included, latest_flag_spec, latest_index,
    has_identifier, latest_for_any_stability, lemma_latest_index_exists, lemma_latest_index_range, module_identifier, path_at,
    trimmed_identifier, within_tolerance, DownloadCounts,
};
use crate::export_file::{
    catalog_has_identifier, catalog_index_valid, identifier_ok, mark_count,
    module_consistent, module_mark, stability_ok, tolerance_ok, valid_release_status,
};
use crate::model::{CatalogIndex, CatalogModule, ParsedModule};
use crate::module_entry::{module_of_json, text_field_value};
use crate::archive::{ArchiveLoad, TextEntry};
use crate::repository_cache::{lemma_repository_entry_paths_distinct, repository_load_of, RepositoryCache};
use crate::json::JsonValue;
use crate::parser::{entry_sources, lemma_modules_have_entry_sources, modules_from_entries};
use crate::text::{lemma_trim_idempotent, trim_spec};

verus! {

/// Modules as parsing produces them: identifiers without surrounding white
/// space, a release status CKAN knows, and distinct paths for the modules
/// of one identifier.
pub open spec fn modules_fit_for_catalog(modules: Seq<ParsedModule>) -> bool {
    &&& forall|i: int|
        0 <= i < modules.len() ==> ((#[trigger] modules[i]).identifier matches Some(id) ==> trim_spec(
            id@,
        ) == id@)
    &&& forall|i: int|
        0 <= i < modules.len() ==> module_identifier(#[trigger] modules[i]) is Some
            ==> valid_release_status(modules[i].release_status@)
    &&& forall|i: int, j: int|
        0 <= i < modules.len() && 0 <= j < modules.len() && i != j && module_identifier(
            #[trigger] modules[i],
        ) is Some && module_identifier(modules[i]) == module_identifier(#[trigger] modules[j])
            ==> modules[i].path@ != modules[j].path@
}

/// Every module that parsing produces has an identifier without
/// surrounding white space, where it has one, and a release status that
/// CKAN knows.
pub proof fn lemma_parsed_module_fits(m: ParsedModule, path: Seq<char>, value: JsonValue)
    requires
        module_of_json(m, path, value),
    ensures
        m.identifier matches Some(id) ==> trim_spec(id@) == id@,
        valid_release_status(m.release_status@),
{
    if m.identifier is Some {
        lemma_trim_idempotent(text_field_value(value, "identifier"@)->0);
    }
}

/// The positions that `catalog_sources` lists lie in the prefix, increase
/// strictly, and are exactly the included modules with an identifier.
proof fn lemma_sources(all: Seq<ParsedModule>, prefix: Seq<ParsedModule>, latest_only: bool)
    ensures
        ({
            let src = catalog_sources(all, prefix, latest_only);
            &&& forall|k: int| 0 <= k < src.len() ==> 0 <= #[trigger] src[k] < prefix.len()
            &&& forall|a: int, b: int| 0 <= a < b < src.len() ==> #[trigger] src[a] < #[trigger] src[b]
            &&& forall|i: int|
                0 <= i < prefix.len() ==> (included(all, #[trigger] prefix[i], latest_only)
                    && trimmed_identifier(prefix[i]) is Some <==> exists|k: int|
                    0 <= k < src.len() && src[k] == i)
        }),
    decreases prefix.len(),
{
    if prefix.len() > 0 {
        let p = prefix.drop_last();
        lemma_sources(all, p, latest_only);
        let rest = catalog_sources(all, p, latest_only);
        let src = catalog_sources(all, prefix, latest_only);
        let n = prefix.len() - 1;
        assert forall|i: int| 0 <= i < prefix.len() implies (included(all, #[trigger] prefix[i], latest_only)
            && trimmed_identifier(prefix[i]) is Some <==> exists|k: int|
            0 <= k < src.len() && src[k] == i) by {
            if i < n {
                assert(prefix[i] == p[i]);
                if exists|k: int| 0 <= k < rest.len() && rest[k] == i {
                    let k = choose|k: int| 0 <= k < rest.len() && rest[k] == i;
                    assert(src[k] == i);
                }
                if exists|k: int| 0 <= k < src.len() && src[k] == i {
                    let k = choose|k: int| 0 <= k < src.len() && src[k] == i;
                    if k < rest.len() {
                        assert(rest[k] == i);
                    }
                }
            } else {
                if included(all, prefix[i], latest_only) && trimmed_identifier(prefix[i]) is Some {
                    assert(src[rest.len() as int] == i);
                }
                if exists|k: int| 0 <= k < src.len() && src[k] == i {
                    let k = choose|k: int| 0 <= k < src.len() && src[k] == i;
                    if k < rest.len() {
                        assert(rest[k] < p.len());
                    }
                }
            }
        }
    }
}

/// Nothing counts when no module carries the identifier and the mark.
proof fn lemma_mark_count_none(ms: Seq<CatalogModule>, id: Seq<char>, which: int)
    requires
        forall|k: int|
            0 <= k < ms.len() ==> !((#[trigger] ms[k]).identifier@ == id && module_mark(ms[k], which)),
    ensures
        mark_count(ms, id, which) == 0,
    decreases ms.len(),
{
    if ms.len() > 0 {
        let p = ms.drop_last();
        assert forall|k: int| 0 <= k < p.len() implies !((#[trigger] p[k]).identifier@ == id
            && module_mark(p[k], which)) by {
            assert(p[k] == ms[k]);
        }
        lemma_mark_count_none(p, id, which);
        assert(ms.last() == ms[ms.len() - 1]);
    }
}

/// One module counts when exactly one carries the identifier and the mark.
proof fn lemma_mark_count_one(ms: Seq<CatalogModule>, id: Seq<char>, which: int, k0: int)
    requires
        0 <= k0 < ms.len(),
        ms[k0].identifier@ == id && module_mark(ms[k0], which),
        forall|k: int|
            0 <= k < ms.len() && (#[trigger] ms[k]).identifier@ == id && module_mark(ms[k], which)
                ==> k == k0,
    ensures
        mark_count(ms, id, which) == 1,
    decreases ms.len(),
{
    let p = ms.drop_last();
    assert(ms.last() == ms[ms.len() - 1]);
    if k0 == ms.len() - 1 {
        assert forall|k: int| 0 <= k < p.len() implies !((#[trigger] p[k]).identifier@ == id
            && module_mark(p[k], which)) by {
            assert(p[k] == ms[k]);
        }
        lemma_mark_count_none(p, id, which);
    } else {
        assert(p[k0] == ms[k0]);
        assert forall|k: int|
            0 <= k < p.len() && (#[trigger] p[k]).identifier@ == id && module_mark(p[k], which)
                implies k == k0 by {
            assert(p[k] == ms[k]);
        }
        lemma_mark_count_one(p, id, which, k0);
    }
}

/// Something counts exactly when some module carries the identifier and the mark.
proof fn lemma_mark_count_positive(ms: Seq<CatalogModule>, id: Seq<char>, which: int)
    ensures
        mark_count(ms, id, which) > 0 <==> exists|k: int|
            0 <= k < ms.len() && (#[trigger] ms[k]).identifier@ == id && module_mark(ms[k], which),
    decreases ms.len(),
{
    if ms.len() > 0 {
        let p = ms.drop_last();
        lemma_mark_count_positive(p, id, which);
        assert(ms.last() == ms[ms.len() - 1]);
        if exists|k: int| 0 <= k < p.len() && (#[trigger] p[k]).identifier@ == id && module_mark(p[k], which) {
            let k = choose|k: int| 0 <= k < p.len() && (#[trigger] p[k]).identifier@ == id && module_mark(p[k], which);
            assert(ms[k] == p[k]);
        }
        if exists|k: int| 0 <= k < ms.len() && (#[trigger] ms[k]).identifier@ == id && module_mark(ms[k], which) {
            let k = choose|k: int| 0 <= k < ms.len() && (#[trigger] ms[k]).identifier@ == id && module_mark(ms[k], which);
            if k < p.len() {
                assert(p[k] == ms[k]);
            }
        }
    }
}

/// With trimmed identifiers, the trimmed identifier is the catalogued one.
proof fn lemma_trimmed_is_identifier(modules: Seq<ParsedModule>, i: int)
    requires
        modules_fit_for_catalog(modules),
        0 <= i < modules.len(),
    ensures
        trimmed_identifier(modules[i]) == module_identifier(modules[i]),
{
    let m = modules[i];
    match m.identifier {
        Some(id) => {
            assert(trim_spec(id@) == id@);
        },
        None => {},
    }
}

/// The mark a status tolerance looks at is set exactly on the candidates
/// within that tolerance.
proof fn lemma_status_marks(c: CatalogModule, m: ParsedModule)
    requires
        c.release_status@ == m.release_status@,
        valid_release_status(m.release_status@),
    ensures
        module_mark(c, 3) == within_tolerance(m, 0),
        module_mark(c, 4) == within_tolerance(m, 1),
        within_tolerance(m, 2),
{
    reveal_strlit("stable");
    reveal_strlit("testing");
    reveal_strlit("development");
    assert("stable"@.len() == 6 && "testing"@.len() == 7 && "development"@.len() == 11);
    assert("stable"@ != "testing"@ && "stable"@ != "development"@);
}

/// The candidate count of one identifier at one tolerance is right.
proof fn lemma_tolerance_ok(
    index: CatalogIndex,
    modules: Seq<ParsedModule>,
    latest_only: bool,
    downloads: DownloadCounts,
    id: Seq<char>,
    t: int,
)
    requires
        0 <= t < 3,
        catalog_records_of(index.modules@, modules, latest_only, downloads),
        modules_fit_for_catalog(modules),
        catalog_has_identifier(index.modules@, id),
    ensures
        tolerance_ok(index.modules@, id, t),
{
    let cms = index.modules@;
    let src = catalog_sources(modules, modules, latest_only);
    lemma_sources(modules, modules, latest_only);
    let k_id = choose|k: int| 0 <= k < cms.len() && #[trigger] cms[k].identifier@ == id;
    assert(catalog_entry_of(cms[k_id], modules[src[k_id]], modules, downloads));
    let j_id = src[k_id];
    lemma_trimmed_is_identifier(modules, j_id);
    assert(module_identifier(modules[j_id]) == Some(id));
    // every record of the identifier comes from a module of the identifier
    assert forall|k: int| 0 <= k < cms.len() && (#[trigger] cms[k]).identifier@ == id implies {
        &&& module_identifier(modules[src[k]]) == Some(id)
        &&& cms[k].path@ == modules[src[k]].path@
        &&& cms[k].release_status@ == modules[src[k]].release_status@
        &&& valid_release_status(modules[src[k]].release_status@)
        &&& cms[k].is_latest_stable == latest_flag_spec(modules, id, modules[src[k]].path@, 0)
        &&& cms[k].is_latest_testing == latest_flag_spec(modules, id, modules[src[k]].path@, 1)
        &&& cms[k].is_latest_development == latest_flag_spec(modules, id, modules[src[k]].path@, 2)
    } by {
        assert(catalog_entry_of(cms[k], modules[src[k]], modules, downloads));
        lemma_trimmed_is_identifier(modules, src[k]);
    }
    let tol: nat = t as nat;
    lemma_latest_index_range(modules, id, tol);
    lemma_latest_index_exists(modules, id, tol);
    let mark_t = if t == 0 {
        3int
    } else {
        4int
    };
    match latest_index(modules, id, tol) {
        Some(j) => {
            // the latest module is included, so exactly one record carries the flag
            assert(latest_flag_spec(modules, id, modules[j].path@, tol));
            assert(included(modules, modules[j], latest_only));
            lemma_trimmed_is_identifier(modules, j);
            assert(exists|k: int| 0 <= k < src.len() && src[k] == j);
            let k1 = choose|k: int| 0 <= k < src.len() && src[k] == j;
            assert(catalog_entry_of(cms[k1], modules[src[k1]], modules, downloads));
            assert(cms[k1].identifier@ == id);
            assert(module_mark(cms[k1], t));
            assert forall|k: int|
                0 <= k < cms.len() && (#[trigger] cms[k]).identifier@ == id && module_mark(cms[k], t)
                    implies k == k1 by {
                assert(path_at(modules, Some(j)) == Some(modules[src[k]].path@));
                if src[k] != j {
                    assert(modules[src[k]].path@ != modules[j].path@);
                }
                if k < k1 {
                    assert(src[k] < src[k1]);
                } else if k > k1 {
                    assert(src[k1] < src[k]);
                }
            }
            lemma_mark_count_one(cms, id, t, k1);
            if t < 2 {
                lemma_status_marks(cms[k1], modules[j]);
                assert(module_mark(cms[k1], mark_t));
                lemma_mark_count_positive(cms, id, mark_t);
            }
        },
        None => {
            if t == 2 {
                lemma_status_marks(cms[k_id], modules[j_id]);
                assert(within_tolerance(modules[j_id], 2));
                assert(false);
            }
            assert forall|k: int| 0 <= k < cms.len() implies !((#[trigger] cms[k]).identifier@ == id
                && module_mark(cms[k], t)) by {
                if cms[k].identifier@ == id {
                    assert(path_at(modules, None) is None);
                }
            }
            lemma_mark_count_none(cms, id, t);
            lemma_mark_count_positive(cms, id, mark_t);
            if mark_count(cms, id, mark_t) > 0 {
                let k = choose|k: int|
                    0 <= k < cms.len() && (#[trigger] cms[k]).identifier@ == id && module_mark(cms[k], mark_t);
                lemma_status_marks(cms[k], modules[src[k]]);
                assert(within_tolerance(modules[src[k]], tol));
                assert(false);
            }
        },
    }
}

/// A catalog index built from modules as parsing produces them passes the
/// catalog validation whenever some module has an identifier: its records
/// have known release statuses and agreeing latest flags, and each
/// identifier has one latest development candidate, one latest testing
/// candidate when it has a release that is not a development one, and one
/// latest stable candidate when it has a stable release.
pub proof fn lemma_built_catalog_passes_validation(
    index: CatalogIndex,
    modules: Seq<ParsedModule>,
    latest_only: bool,
    downloads: DownloadCounts,
)
    requires
        index.schema_version == 2,
        catalog_records_of(index.modules@, modules, latest_only, downloads),
        modules_fit_for_catalog(modules),
        exists|i: int| 0 <= i < modules.len() && module_identifier(#[trigger] modules[i]) is Some,
    ensures
        catalog_index_valid(index),
{
    let cms = index.modules@;
    let src = catalog_sources(modules, modules, latest_only);
    lemma_sources(modules, modules, latest_only);
    // some record exists: the latest development module of any identifier
    let i0 = choose|i: int| 0 <= i < modules.len() && module_identifier(#[trigger] modules[i]) is Some;
    let id0 = module_identifier(modules[i0])->0;
    lemma_latest_index_exists(modules, id0, 2);
    lemma_latest_index_range(modules, id0, 2);
    assert(within_tolerance(modules[i0], 2));
    let j0 = latest_index(modules, id0, 2)->0;
    assert(latest_flag_spec(modules, id0, modules[j0].path@, 2));
    lemma_trimmed_is_identifier(modules, j0);
    assert(included(modules, modules[j0], latest_only));
    assert(exists|k: int| 0 <= k < src.len() && src[k] == j0);
    assert(cms.len() > 0);
    lemma_built_catalog_is_stable(index, modules, latest_only, downloads);
}

/// Every catalog index built from modules as parsing produces them passes
/// the schema-v2 stability check, whatever the modules: its records have
/// known release statuses and agreeing latest flags, and each identifier
/// has the right number of latest candidates at each tolerance.
pub proof fn lemma_built_catalog_is_stable(
    index: CatalogIndex,
    modules: Seq<ParsedModule>,
    latest_only: bool,
    downloads: DownloadCounts,
)
    requires
        catalog_records_of(index.modules@, modules, latest_only, downloads),
        modules_fit_for_catalog(modules),
    ensures
        stability_ok(index.modules@),
{
    let cms = index.modules@;
    let src = catalog_sources(modules, modules, latest_only);
    lemma_sources(modules, modules, latest_only);
    // every record is consistent
    assert forall|k: int| 0 <= k < cms.len() implies module_consistent(#[trigger] cms[k]) by {
        assert(catalog_entry_of(cms[k], modules[src[k]], modules, downloads));
        lemma_trimmed_is_identifier(modules, src[k]);
    }
    // every identifier has the right candidates
    assert forall|id: Seq<char>| catalog_has_identifier(cms, id) implies identifier_ok(cms, id) by {
        lemma_tolerance_ok(index, modules, latest_only, downloads, id, 0);
        lemma_tolerance_ok(index, modules, latest_only, downloads, id, 1);
        lemma_tolerance_ok(index, modules, latest_only, downloads, id, 2);
    }
    assert(stability_ok(cms));
}


/// The catalog index built from an archive passes the catalog validation
/// whenever the archive's entries have distinct paths and some parsed module
/// has an identifier.
pub proof fn lemma_archive_catalog_passes_validation(
    index: CatalogIndex,
    modules: Seq<ParsedModule>,
    entries: Seq<TextEntry>,
    docs: Seq<Result<JsonValue, String>>,
    latest_only: bool,
    downloads: DownloadCounts,
)
    requires
        index.schema_version == 2,
        catalog_records_of(index.modules@, modules, latest_only, downloads),
        modules_from_entries(modules, entries, docs),
        forall|a: int, b: int|
            0 <= a < entries.len() && 0 <= b < entries.len() && a != b ==> (#[trigger] entries[a]).path@
                != (#[trigger] entries[b]).path@,
        exists|i: int| 0 <= i < modules.len() && module_identifier(#[trigger] modules[i]) is Some,
    ensures
        catalog_index_valid(index),
{
    lemma_modules_have_entry_sources(modules, entries, docs);
    let q = choose|q: Seq<int>| entry_sources(q, modules, entries, docs);
    assert forall|i: int| 0 <= i < modules.len() implies ((#[trigger] modules[i]).identifier matches Some(id)
        ==> trim_spec(id@) == id@) && valid_release_status(modules[i].release_status@) by {
        assert(0 <= q[i] < entries.len());
        lemma_parsed_module_fits(modules[i], entries[q[i]].path@, docs[q[i]]->Ok_0);
    }
    assert forall|i: int, j: int|
        0 <= i < modules.len() && 0 <= j < modules.len() && i != j && module_identifier(#[trigger] modules[i])
            is Some && module_identifier(modules[i]) == module_identifier(#[trigger] modules[j]) implies modules[i].path@
        != modules[j].path@ by {
        assert(q[i] != q[j]);
        assert(0 <= q[i] < entries.len());
        assert(0 <= q[j] < entries.len());
        assert(entries[q[i]].path@ != entries[q[j]].path@);
    }
    assert(modules_fit_for_catalog(modules));
    lemma_built_catalog_passes_validation(index, modules, latest_only, downloads);
}

/// The catalog index built from merged repository caches passes the catalog
/// validation whenever some parsed module has an identifier.
pub proof fn lemma_repository_catalog_passes_validation(
    index: CatalogIndex,
    modules: Seq<ParsedModule>,
    caches: Seq<RepositoryCache>,
    load: ArchiveLoad,
    bytes_read: u64,
    docs: Seq<Result<JsonValue, String>>,
    latest_only: bool,
    downloads: DownloadCounts,
)
    requires
        repository_load_of(load, caches, bytes_read),
        modules_from_entries(modules, load.entries@, docs),
        index.schema_version == 2,
        catalog_records_of(index.modules@, modules, latest_only, downloads),
        exists|i: int| 0 <= i < modules.len() && module_identifier(#[trigger] modules[i]) is Some,
    ensures
        catalog_index_valid(index),
{
    lemma_repository_entry_paths_distinct(load, caches, bytes_read);
    lemma_archive_catalog_passes_validation(index, modules, load.entries@, docs, latest_only, downloads);
}

/// Whether the module at a position is the latest of its identifier at
/// some tolerance.
pub open spec fn latest_position(modules: Seq<ParsedModule>) -> spec_fn(int) -> bool {
    |i: int| latest_for_any_stability(modules, modules[i])
}

pub open spec fn identifiers_trimmed(modules: Seq<ParsedModule>) -> bool {
    forall|i: int|
        0 <= i < modules.len() ==> ((#[trigger] modules[i]).identifier matches Some(id) ==> trim_spec(id@) == id@)
}

proof fn lemma_latest_sources_prefix(all: Seq<ParsedModule>, n: int)
    requires
        0 <= n <= all.len(),
        identifiers_trimmed(all),
    ensures
        catalog_sources(all, all.take(n), true) == catalog_sources(all, all.take(n), false).filter(
            latest_position(all),
        ),
    decreases n,
{
    reveal(Seq::filter);
    if n == 0 {
        assert(catalog_sources(all, all.take(0), false) =~= Seq::<int>::empty());
        assert(catalog_sources(all, all.take(0), false).filter(latest_position(all)) =~= Seq::<int>::empty());
    } else {
        lemma_latest_sources_prefix(all, n - 1);
        let p = all.take(n);
        assert(p.drop_last() =~= all.take(n - 1));
        assert(p.last() == all[n - 1]);
        let m = all[n - 1];
        let falses = catalog_sources(all, all.take(n - 1), false);
        assert(m.identifier matches Some(id) ==> trim_spec(id@) == id@);
        if trimmed_identifier(m) is Some {
            assert(falses.push(n - 1).drop_last() =~= falses);
            assert(falses.push(n - 1).last() == n - 1);
        }
    }
}

/// The latest-only catalog lists exactly the modules of the full catalog
/// whose records are flagged latest at some tolerance, in the same order,
/// for modules with trimmed identifiers as parsing gives them.
pub proof fn lemma_latest_only_filters_full(
    full: Seq<CatalogModule>,
    latest: Seq<CatalogModule>,
    modules: Seq<ParsedModule>,
    downloads: DownloadCounts,
)
    requires
        catalog_records_of(full, modules, false, downloads),
        catalog_records_of(latest, modules, true, downloads),
        identifiers_trimmed(modules),
    ensures
        catalog_sources(modules, modules, true) == catalog_sources(modules, modules, false).filter(
            latest_position(modules),
        ),
        forall|k: int|
            0 <= k < full.len() ==> ((#[trigger] full[k]).is_latest_stable || full[k].is_latest_testing
                || full[k].is_latest_development) == latest_for_any_stability(
                modules,
                modules[catalog_sources(modules, modules, false)[k]],
            ),
{
    lemma_latest_sources_prefix(modules, modules.len() as int);
    assert(modules.take(modules.len() as int) =~= modules);
    lemma_sources(modules, modules, false);
    let src = catalog_sources(modules, modules, false);
    assert forall|k: int| 0 <= k < full.len() implies ((#[trigger] full[k]).is_latest_stable
        || full[k].is_latest_testing || full[k].is_latest_development) == latest_for_any_stability(
        modules,
        modules[src[k]],
    ) by {
        let m = modules[src[k]];
        assert(0 <= src[k] < modules.len());
        assert(catalog_entry_of(full[k], m, modules, downloads));
        assert(m.identifier matches Some(id) ==> trim_spec(id@) == id@);
    }
}

/// Every identifier keeps at least one record in the latest-only catalog:
/// its latest development module, for modules with trimmed identifiers.
pub proof fn lemma_latest_only_keeps_identifiers(modules: Seq<ParsedModule>, id: Seq<char>)
    requires
        identifiers_trimmed(modules),
        has_identifier(modules, id),
    ensures
        exists|k: int|
            0 <= k < catalog_sources(modules, modules, true).len() && module_identifier(
                #[trigger] modules[catalog_sources(modules, modules, true)[k]],
            ) == Some(id),
{
    let j0 = choose|j: int| 0 <= j < modules.len() && module_identifier(#[trigger] modules[j]) == Some(id);
    assert(within_tolerance(modules[j0], 2));
    lemma_latest_index_exists(modules, id, 2);
    lemma_latest_index_range(modules, id, 2);
    let j = latest_index(modules, id, 2)->0;
    let m = modules[j];
    assert(latest_flag_spec(modules, id, m.path@, 2));
    assert(latest_for_any_stability(modules, m));
    assert(m.identifier matches Some(x) ==> trim_spec(x@) == x@);
    assert(trimmed_identifier(m) is Some);
    lemma_sources(modules, modules, true);
    let src = catalog_sources(modules, modules, true);
    assert(included(modules, modules[j], true));
    let k = choose|k: int| 0 <= k < src.len() && src[k] == j;
    assert(module_identifier(modules[src[k]]) == Some(id));
}

/// A module of the latest-only catalog is the latest of its identifier at
/// one of the three tolerances.
proof fn lemma_latest_record_is_a_latest_index(modules: Seq<ParsedModule>, id: Seq<char>, k: int)
    requires
        modules_fit_for_catalog(modules),
        0 <= k < catalog_sources(modules, modules, true).len(),
        module_identifier(modules[catalog_sources(modules, modules, true)[k]]) == Some(id),
    ensures
        ({
            let i = catalog_sources(modules, modules, true)[k];
            ||| latest_index(modules, id, 0) == Some(i)
            ||| latest_index(modules, id, 1) == Some(i)
            ||| latest_index(modules, id, 2) == Some(i)
        }),
{
    lemma_sources(modules, modules, true);
    let src = catalog_sources(modules, modules, true);
    let i = src[k];
    assert(0 <= i < modules.len());
    assert(included(modules, modules[i], true));
    let m = modules[i];
    lemma_latest_index_range(modules, id, 0);
    lemma_latest_index_range(modules, id, 1);
    lemma_latest_index_range(modules, id, 2);
    let t: nat = if latest_flag_spec(modules, id, m.path@, 0) {
        0
    } else if latest_flag_spec(modules, id, m.path@, 1) {
        1
    } else {
        2
    };
    assert(latest_flag_spec(modules, id, m.path@, t));
    let j = latest_index(modules, id, t)->0;
    assert(modules[j].path@ == m.path@);
    assert(module_identifier(modules[j]) == Some(id));
    if j != i {
        assert(modules[i].path@ != modules[j].path@);
    }
}

/// No identifier has more than three records in the latest-only catalog:
/// among any four of its records, some carries another identifier.
pub proof fn lemma_latest_only_at_most_three(modules: Seq<ParsedModule>, id: Seq<char>, a: int, b: int, c: int, d: int)
    requires
        modules_fit_for_catalog(modules),
        0 <= a < b < c < d < catalog_sources(modules, modules, true).len(),
    ensures
        !({
            let src = catalog_sources(modules, modules, true);
            &&& module_identifier(modules[src[a]]) == Some(id)
            &&& module_identifier(modules[src[b]]) == Some(id)
            &&& module_identifier(modules[src[c]]) == Some(id)
            &&& module_identifier(modules[src[d]]) == Some(id)
        }),
{
    let src = catalog_sources(modules, modules, true);
    lemma_sources(modules, modules, true);
    if module_identifier(modules[src[a]]) == Some(id) && module_identifier(modules[src[b]]) == Some(id)
        && module_identifier(modules[src[c]]) == Some(id) && module_identifier(modules[src[d]]) == Some(id) {
        lemma_latest_record_is_a_latest_index(modules, id, a);
        lemma_latest_record_is_a_latest_index(modules, id, b);
        lemma_latest_record_is_a_latest_index(modules, id, c);
        lemma_latest_record_is_a_latest_index(modules, id, d);
        assert(src[a] < src[b] && src[b] < src[c] && src[c] < src[d]);
    }
}

/// A catalog record is named by its module's name when that name is not
/// blank, and by the record's identifier (the module's trimmed identifier)
/// otherwise.
pub proof fn lemma_catalog_record_names(
    cms: Seq<CatalogModule>,
    modules: Seq<ParsedModule>,
    latest_only: bool,
    downloads: DownloadCounts,
    k: int,
)
    requires
        catalog_records_of(cms, modules, latest_only, downloads),
        0 <= k < cms.len(),
    ensures
        ({
            let m = modules[catalog_sources(modules, modules, latest_only)[k]];
            &&& m.identifier matches Some(id) && cms[k].identifier@ == trim_spec(id@)
            &&& (m.name matches Some(n) ==> (trim_spec(n@).len() > 0 ==> cms[k].name@ == n@))
            &&& (!(m.name matches Some(n) && trim_spec(n@).len() > 0) ==> cms[k].name@ == cms[k].identifier@)
        }),
{
    let m = modules[catalog_sources(modules, modules, latest_only)[k]];
    assert(catalog_entry_of(cms[k], m, modules, downloads));
}

} // verus!
