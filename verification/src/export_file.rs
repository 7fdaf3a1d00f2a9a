//! Checks on exported files: the catalog sidecar and module summary exports.

use vstd::prelude::*;

use crate::counting::{count_where, distinct_texts, lemma_count_where_bound, lemma_count_where_step,
    lemma_sum_of_prefix_le, lemma_sum_of_step, sum_of};
use crate::keymap::{find_text, key_position, strictly_ordered};
use crate::model::{CatalogIndex, CatalogIndexValidationReport, CatalogModule, CatalogRelation,
    ExportPackage, ExportValidationReport, ModuleSummary};
use crate::order::{lex_lt, opt_view, views};
use crate::text::{chars_of, is_blank, split_char, split_spec, string_from_range, text_copy, text_eq,
    trim_spec};
use crate::model::{copy_opt, summarizes, ArchiveParse, ParsedModule};
use crate::parser::{module_edges, module_flag_pred, module_identifier_list, report_of};
use crate::archive::ArchiveLoad;
use crate::json::JsonValue;

verus! {

/// Why a catalog index is refused.
pub enum CatalogValidationError {
    /// The schema version is neither 1 nor 2.
    UnsupportedSchemaVersion { schema_version: u32 },
    /// The index lists no module.
    NoModules,
    /// A module's release status is not `stable`, `testing` or `development`.
    InvalidReleaseStatus { release_status: String, identifier: String, version: Option<String> },
    /// A module's `is_latest` differs from its `is_latest_development`.
    LatestFlagsDisagree { identifier: String, version: Option<String> },
    /// An identifier has the wrong number of latest candidates for a tolerance.
    LatestCandidateCount { identifier: String, tolerance: String, expected: usize, actual: usize },
}

/// The release statuses that CKAN knows.
pub open spec fn valid_release_status(status: Seq<char>) -> bool {
    status == "stable"@ || status == "testing"@ || status == "development"@
}

/// A module with an identifier has a known release status and agreeing
/// `is_latest` and `is_latest_development` flags.
pub open spec fn module_consistent(m: CatalogModule) -> bool {
    m.identifier@.len() == 0 || (valid_release_status(m.release_status@) && m.is_latest
        == m.is_latest_development)
}

/// `i` is the first module that is not consistent.
pub open spec fn first_inconsistent_at(ms: Seq<CatalogModule>, i: int) -> bool {
    &&& 0 <= i < ms.len()
    &&& !module_consistent(ms[i])
    &&& forall|j: int| 0 <= j < i ==> module_consistent(#[trigger] ms[j])
}

/// Which of a module's marks a count looks at: the latest-stable,
/// latest-testing and latest-development flags, a `stable` status, and a
/// status other than `development`.
pub open spec fn module_mark(m: CatalogModule, which: int) -> bool {
    if which == 0 {
        m.is_latest_stable
    } else if which == 1 {
        m.is_latest_testing
    } else if which == 2 {
        m.is_latest_development
    } else if which == 3 {
        m.release_status@ == "stable"@
    } else {
        m.release_status@ != "development"@
    }
}

/// The number of modules with the identifier that carry the mark.
pub open spec fn mark_count(ms: Seq<CatalogModule>, id: Seq<char>, which: int) -> nat
    decreases ms.len(),
{
    if ms.len() == 0 {
        0
    } else {
        mark_count(ms.drop_last(), id, which) + if ms.last().identifier@ == id && module_mark(
            ms.last(),
            which,
        ) {
            1nat
        } else {
            0nat
        }
    }
}

/// How many latest candidates of a tolerance an identifier must have: one
/// stable candidate when it has a stable release, one testing candidate when
/// it has a release that is not a development one, and one development
/// candidate always.
pub open spec fn expected_candidates(ms: Seq<CatalogModule>, id: Seq<char>, tolerance: int) -> nat {
    if tolerance == 0 {
        if mark_count(ms, id, 3) > 0 {
            1
        } else {
            0
        }
    } else if tolerance == 1 {
        if mark_count(ms, id, 4) > 0 {
            1
        } else {
            0
        }
    } else {
        1
    }
}

pub open spec fn tolerance_ok(ms: Seq<CatalogModule>, id: Seq<char>, tolerance: int) -> bool {
    mark_count(ms, id, tolerance) == expected_candidates(ms, id, tolerance)
}

pub open spec fn identifier_ok(ms: Seq<CatalogModule>, id: Seq<char>) -> bool {
    tolerance_ok(ms, id, 0) && tolerance_ok(ms, id, 1) && tolerance_ok(ms, id, 2)
}

/// Some module carries this non-empty identifier.
pub open spec fn catalog_has_identifier(ms: Seq<CatalogModule>, id: Seq<char>) -> bool {
    id.len() > 0 && exists|i: int| 0 <= i < ms.len() && #[trigger] ms[i].identifier@ == id
}

/// `id` is the least identifier, in lexicographic order, whose candidates
/// are wrong.
pub open spec fn first_failing_identifier(ms: Seq<CatalogModule>, id: Seq<char>) -> bool {
    &&& catalog_has_identifier(ms, id)
    &&& !identifier_ok(ms, id)
    &&& forall|other: Seq<char>|
        catalog_has_identifier(ms, other) && lex_lt(other, id) ==> identifier_ok(ms, other)
}

pub open spec fn tolerance_name(tolerance: int) -> Seq<char> {
    if tolerance == 0 {
        "stable"@
    } else if tolerance == 1 {
        "testing"@
    } else {
        "development"@
    }
}

/// The schema-v2 stability rules hold.
pub open spec fn stability_ok(ms: Seq<CatalogModule>) -> bool {
    &&& forall|i: int| 0 <= i < ms.len() ==> module_consistent(#[trigger] ms[i])
    &&& forall|id: Seq<char>| catalog_has_identifier(ms, id) ==> identifier_ok(ms, id)
}

/// The error that the stability check reports: the first inconsistent
/// module, else the first wrong candidate count of the least failing
/// identifier, in the order stable, testing, development.
pub open spec fn stability_error(ms: Seq<CatalogModule>, e: CatalogValidationError) -> bool {
    match e {
        CatalogValidationError::InvalidReleaseStatus { release_status, identifier, version } => exists|i: int|
            {
                &&& #[trigger] first_inconsistent_at(ms, i)
                &&& !valid_release_status(ms[i].release_status@)
                &&& release_status@ == ms[i].release_status@
                &&& identifier@ == ms[i].identifier@
                &&& opt_view(version) == opt_view(ms[i].version)
            },
        CatalogValidationError::LatestFlagsDisagree { identifier, version } => exists|i: int|
            {
                &&& #[trigger] first_inconsistent_at(ms, i)
                &&& valid_release_status(ms[i].release_status@)
                &&& identifier@ == ms[i].identifier@
                &&& opt_view(version) == opt_view(ms[i].version)
            },
        CatalogValidationError::LatestCandidateCount { identifier, tolerance, expected, actual } => {
            &&& forall|i: int| 0 <= i < ms.len() ==> module_consistent(#[trigger] ms[i])
            &&& first_failing_identifier(ms, identifier@)
            &&& exists|t: int|
                {
                    &&& 0 <= t < 3
                    &&& !#[trigger] tolerance_ok(ms, identifier@, t)
                    &&& forall|u: int| 0 <= u < t ==> tolerance_ok(ms, identifier@, u)
                    &&& tolerance@ == tolerance_name(t)
                    &&& expected == expected_candidates(ms, identifier@, t)
                    &&& actual == mark_count(ms, identifier@, t)
                }
        },
        _ => false,
    }
}

proof fn lemma_mark_count_step(ms: Seq<CatalogModule>, i: int, id: Seq<char>, which: int)
    requires
        0 <= i < ms.len(),
    ensures
        mark_count(ms.take(i + 1), id, which) == mark_count(ms.take(i), id, which) + if ms[i].identifier@
            == id && module_mark(ms[i], which) {
            1nat
        } else {
            0nat
        },
{
    assert(ms.take(i + 1).drop_last() =~= ms.take(i));
    assert(ms.take(i + 1).last() == ms[i]);
}

proof fn lemma_mark_count_bound(ms: Seq<CatalogModule>, id: Seq<char>, which: int)
    ensures
        mark_count(ms, id, which) <= ms.len(),
    decreases ms.len(),
{
    if ms.len() > 0 {
        lemma_mark_count_bound(ms.drop_last(), id, which);
    }
}

/// The five counts of one identifier.
#[derive(Clone, Copy)]
pub struct MarkCounts {
    pub latest_stable: usize,
    pub latest_testing: usize,
    pub latest_development: usize,
    pub stable: usize,
    pub not_development: usize,
}

pub open spec fn counts_match(c: MarkCounts, ms: Seq<CatalogModule>, id: Seq<char>) -> bool {
    &&& c.latest_stable == mark_count(ms, id, 0)
    &&& c.latest_testing == mark_count(ms, id, 1)
    &&& c.latest_development == mark_count(ms, id, 2)
    &&& c.stable == mark_count(ms, id, 3)
    &&& c.not_development == mark_count(ms, id, 4)
}

/// The non-empty identifiers of the modules, in module order.
pub open spec fn catalog_identifiers(ms: Seq<CatalogModule>) -> Seq<Seq<char>>
    decreases ms.len(),
{
    if ms.len() == 0 {
        Seq::empty()
    } else if ms.last().identifier@.len() > 0 {
        catalog_identifiers(ms.drop_last()).push(ms.last().identifier@)
    } else {
        catalog_identifiers(ms.drop_last())
    }
}

proof fn lemma_catalog_identifiers_contains(ms: Seq<CatalogModule>, id: Seq<char>)
    ensures
        catalog_identifiers(ms).contains(id) <==> catalog_has_identifier(ms, id),
    decreases ms.len(),
{
    if ms.len() > 0 {
        let p = ms.drop_last();
        lemma_catalog_identifiers_contains(p, id);
        if catalog_has_identifier(p, id) {
            let j = choose|j: int| 0 <= j < p.len() && #[trigger] p[j].identifier@ == id;
            assert(ms[j] == p[j]);
        }
        if catalog_has_identifier(ms, id) {
            let j = choose|j: int| 0 <= j < ms.len() && #[trigger] ms[j].identifier@ == id;
            if j < ms.len() - 1 {
                assert(p[j] == ms[j]);
            }
        }
        if catalog_identifiers(ms).contains(id) && ms.last().identifier@.len() > 0 {
            let l = catalog_identifiers(p);
            let k = choose|k: int| 0 <= k < l.push(ms.last().identifier@).len() && l.push(
                ms.last().identifier@,
            )[k] == id;
            if k < l.len() {
                assert(l[k] == id);
            }
        }
        if catalog_has_identifier(p, id) && ms.last().identifier@.len() > 0 {
            let l = catalog_identifiers(p);
            let k = choose|k: int| 0 <= k < l.len() && l[k] == id;
            assert(l.push(ms.last().identifier@)[k] == id);
        }
        if ms.last().identifier@ == id && id.len() > 0 {
            let l = catalog_identifiers(p);
            assert(l.push(ms.last().identifier@)[l.len() as int] == id);
        }
    }
}

/// Collects the non-empty identifiers of the modules.
fn collect_catalog_identifiers(ms: &Vec<CatalogModule>) -> (r: Vec<String>)
    ensures
        views(r@) == catalog_identifiers(ms@),
{
    let mut out: Vec<String> = Vec::new();
    let mut i: usize = 0;
    while i < ms.len()
        invariant
            i <= ms.len(),
            views(out@) == catalog_identifiers(ms@.take(i as int)),
        decreases ms.len() - i,
    {
        proof {
            assert(ms@.take(i + 1).drop_last() =~= ms@.take(i as int));
            assert(ms@.take(i + 1).last() == ms@[i as int]);
        }
        if !ms[i].identifier.as_str().is_empty() {
            let ghost before = out@;
            out.push(ms[i].identifier.clone());
            proof {
                assert(views(out@) =~= views(before).push(ms@[i as int].identifier@));
            }
        }
        i = i + 1;
    }
    proof {
        assert(ms@.take(ms.len() as int) =~= ms@);
    }
    out
}

/// Checks one tolerance's count of latest candidates for an identifier.
pub fn validate_latest_flag_count(identifier: &str, tolerance: &str, expected: bool, actual: usize) -> (r:
    Result<(), CatalogValidationError>)
    ensures
        r is Ok <==> actual == (if expected {
            1nat
        } else {
            0nat
        }),
        r matches Err(e) ==> e matches CatalogValidationError::LatestCandidateCount {
            identifier: i,
            tolerance: t,
            expected: x,
            actual: a,
        } && i@ == identifier@ && t@ == tolerance@ && x == (if expected {
            1nat
        } else {
            0nat
        }) && a == actual,
{
    let expected: usize = if expected {
        1
    } else {
        0
    };
    if actual == expected {
        Ok(())
    } else {
        Err(
            CatalogValidationError::LatestCandidateCount {
                identifier: text_copy(identifier),
                tolerance: text_copy(tolerance),
                expected,
                actual,
            },
        )
    }
}

/// Checks the schema-v2 stability rules of a catalog index: every module with
/// an identifier has a known release status and agreeing latest flags, and
/// each identifier has exactly the latest candidates its releases call for.
pub fn validate_schema_v2_stability(index: &CatalogIndex) -> (r: Result<(), CatalogValidationError>)
    ensures
        r is Ok <==> stability_ok(index.modules@),
        r matches Err(e) ==> stability_error(index.modules@, e),
{
    let ms = &index.modules;
    let ghost s = ms@;
    let mut i: usize = 0;
    while i < ms.len()
        invariant
            i <= ms.len(),
            s == ms@,
            s == index.modules@,
            forall|j: int| 0 <= j < i ==> module_consistent(#[trigger] s[j]),
        decreases ms.len() - i,
    {
        let m = &ms[i];
        if !m.identifier.as_str().is_empty() {
            let status = m.release_status.as_str();
            if !(text_eq(status, "stable") || text_eq(status, "testing") || text_eq(
                status,
                "development",
            )) {
                let e = CatalogValidationError::InvalidReleaseStatus {
                    release_status: m.release_status.clone(),
                    identifier: m.identifier.clone(),
                    version: copy_opt(&m.version),
                };
                proof {
                    assert(first_inconsistent_at(s, i as int));
                    assert(stability_error(index.modules@, e));
                }
                return Err(e);
            }
            if m.is_latest != m.is_latest_development {
                let e = CatalogValidationError::LatestFlagsDisagree {
                    identifier: m.identifier.clone(),
                    version: copy_opt(&m.version),
                };
                proof {
                    assert(first_inconsistent_at(s, i as int));
                    assert(stability_error(index.modules@, e));
                }
                return Err(e);
            }
        }
        i = i + 1;
    }
    let all_ids = collect_catalog_identifiers(ms);
    let ids = distinct_texts(&all_ids);
    proof {
        assert forall|id: Seq<char>| views(ids@).contains(id) <==> catalog_has_identifier(s, id) by {
            lemma_catalog_identifiers_contains(s, id);
            assert(views(ids@).to_set().contains(id) == views(ids@).contains(id));
            assert(views(all_ids@).to_set().contains(id) == views(all_ids@).contains(id));
        }
    }
    let mut counts: Vec<MarkCounts> = Vec::new();
    let mut k: usize = 0;
    while k < ids.len()
        invariant
            k <= ids.len(),
            counts.len() == k,
            s == index.modules@,
            forall|j: int| 0 <= j < k ==> counts_match(#[trigger] counts@[j], s.take(0), ids@[j]@),
        decreases ids.len() - k,
    {
        let zero = MarkCounts {
            latest_stable: 0,
            latest_testing: 0,
            latest_development: 0,
            stable: 0,
            not_development: 0,
        };
        proof {
            assert(s.take(0).len() == 0);
            assert(forall|w: int| mark_count(#[trigger] s.take(0), ids@[k as int]@, w) == 0);
            assert(counts_match(zero, s.take(0), ids@[k as int]@));
        }
        let ghost before = counts@;
        counts.push(zero);
        proof {
            assert forall|j: int| 0 <= j < k + 1 implies counts_match(#[trigger] counts@[j], s.take(0), ids@[j]@) by {
                if j < k {
                    assert(counts@[j] == before[j]);
                }
            }
        }
        k = k + 1;
    }
    let mut i: usize = 0;
    while i < ms.len()
        invariant
            i <= ms.len(),
            s == ms@,
            s == index.modules@,
            counts.len() == ids.len(),
            strictly_ordered::<String>(views(ids@)),
            forall|id: Seq<char>| views(ids@).contains(id) <==> catalog_has_identifier(s, id),
            forall|j: int| 0 <= j < counts.len() ==> counts_match(#[trigger] counts@[j], s.take(i as int), ids@[j]@),
        decreases ms.len() - i,
    {
        proof {
            assert forall|id: Seq<char>, w: int| #[trigger] mark_count(s.take(i + 1), id, w) == mark_count(s.take(i as int), id, w) + if s[i as int].identifier@
                == id && module_mark(s[i as int], w) {
                1nat
            } else {
                0nat
            } by {
                lemma_mark_count_step(s, i as int, id, w);
            }
        }
        let m = &ms[i];
        if !m.identifier.as_str().is_empty() {
            proof {
                assert(catalog_has_identifier(s, s[i as int].identifier@));
                assert(views(ids@).contains(m.identifier@));
                let p = choose|p: int| 0 <= p < views(ids@).len() && views(ids@)[p] == m.identifier@;
                assert(ids@[p]@ == m.identifier@);
            }
            let found = find_text(&ids, &m.identifier);
            let p = match found {
                Some(p) => p,
                None => {
                    proof {
                        assert(false);
                    }
                    0
                },
            };
            proof {
                let q = key_position(ids@, m.identifier@)->0;
                assert(ids@[p as int]@ == m.identifier@);
                lemma_mark_count_bound(s.take(i as int), m.identifier@, 0);
                lemma_mark_count_bound(s.take(i as int), m.identifier@, 1);
                lemma_mark_count_bound(s.take(i as int), m.identifier@, 2);
                lemma_mark_count_bound(s.take(i as int), m.identifier@, 3);
                lemma_mark_count_bound(s.take(i as int), m.identifier@, 4);
            }
            let c = counts[p];
            let status = m.release_status.as_str();
            let next = MarkCounts {
                latest_stable: c.latest_stable + if m.is_latest_stable {
                    1
                } else {
                    0
                },
                latest_testing: c.latest_testing + if m.is_latest_testing {
                    1
                } else {
                    0
                },
                latest_development: c.latest_development + if m.is_latest_development {
                    1
                } else {
                    0
                },
                stable: c.stable + if text_eq(status, "stable") {
                    1
                } else {
                    0
                },
                not_development: c.not_development + if text_eq(status, "development") {
                    0
                } else {
                    1
                },
            };
            let ghost old_counts = counts@;
            proof {
                assert(counts_match(old_counts[p as int], s.take(i as int), ids@[p as int]@));
                assert(s[i as int] == *m);
                assert(counts_match(next, s.take(i + 1), ids@[p as int]@));
            }
            counts.set(p, next);
            proof {
                assert forall|j: int| 0 <= j < counts.len() implies counts_match(
                    #[trigger] counts@[j],
                    s.take(i + 1),
                    ids@[j]@,
                ) by {
                    if j != p {
                        assert(counts@[j] == old_counts[j]);
                        assert(views(ids@)[j] == ids@[j]@);
                        assert(views(ids@)[p as int] == ids@[p as int]@);
                        assert(ids@[j]@ != m.identifier@) by {
                            if j < p {
                                assert(lex_lt(views(ids@)[j], views(ids@)[p as int]));
                            } else {
                                assert(lex_lt(views(ids@)[p as int], views(ids@)[j]));
                            }
                            crate::order::lemma_lex_irreflexive(m.identifier@);
                        }
                    }
                }
            }
        } else {
            proof {
                assert forall|j: int| 0 <= j < counts.len() implies counts_match(
                    #[trigger] counts@[j],
                    s.take(i + 1),
                    ids@[j]@,
                ) by {
                    assert(views(ids@).contains(views(ids@)[j]));
                    assert(views(ids@)[j] == ids@[j]@);
                    assert(catalog_has_identifier(s, ids@[j]@));
                    assert(s[i as int].identifier@.len() == 0);
                    assert(s[i as int].identifier@ != ids@[j]@);
                    assert(counts_match(counts@[j], s.take(i as int), ids@[j]@));
                }
            }
        }
        i = i + 1;
    }
    proof {
        assert(s.take(ms.len() as int) =~= s);
    }
    let mut k: usize = 0;
    while k < ids.len()
        invariant
            k <= ids.len(),
            s == ms@,
            s == index.modules@,
            counts.len() == ids.len(),
            strictly_ordered::<String>(views(ids@)),
            forall|i: int| 0 <= i < s.len() ==> module_consistent(#[trigger] s[i]),
            forall|id: Seq<char>| views(ids@).contains(id) <==> catalog_has_identifier(s, id),
            forall|j: int| 0 <= j < counts.len() ==> counts_match(#[trigger] counts@[j], s, ids@[j]@),
            forall|j: int| 0 <= j < k ==> identifier_ok(s, #[trigger] ids@[j]@),
        decreases ids.len() - k,
    {
        let c = counts[k];
        let id = ids[k].as_str();
        proof {
            assert(views(ids@)[k as int] == ids@[k as int]@);
            assert(views(ids@).contains(ids@[k as int]@));
            assert forall|other: Seq<char>| catalog_has_identifier(s, other) && lex_lt(
                other,
                ids@[k as int]@,
            ) implies identifier_ok(s, other) by {
                assert(views(ids@).contains(other));
                let j = choose|j: int| 0 <= j < views(ids@).len() && views(ids@)[j] == other;
                assert(views(ids@)[j] == ids@[j]@);
                if j >= k {
                    if j > k {
                        assert(lex_lt(views(ids@)[k as int], views(ids@)[j]));
                    }
                    crate::order::lemma_lex_asymmetric(other, ids@[k as int]@);
                    crate::order::lemma_lex_irreflexive(other);
                }
            }
        }
        proof {
            assert(counts_match(counts@[k as int], s, ids@[k as int]@));
            assert(catalog_has_identifier(s, ids@[k as int]@));
        }
        let ghost key = ids@[k as int]@;
        let checked = validate_latest_flag_count(id, "stable", c.stable > 0, c.latest_stable);
        if checked.is_err() {
            proof {
                assert(!tolerance_ok(s, key, 0));
                assert(first_failing_identifier(s, key));
                assert(stability_error(s, checked->Err_0));
                assert(stability_error(index.modules@, checked->Err_0));
            }
            return checked;
        }
        let checked = validate_latest_flag_count(id, "testing", c.not_development > 0, c.latest_testing);
        if checked.is_err() {
            proof {
                assert(tolerance_ok(s, key, 0));
                assert(!tolerance_ok(s, key, 1));
                assert(first_failing_identifier(s, key));
                assert(stability_error(s, checked->Err_0));
                assert(stability_error(index.modules@, checked->Err_0));
            }
            return checked;
        }
        let checked = validate_latest_flag_count(id, "development", true, c.latest_development);
        if checked.is_err() {
            proof {
                assert(tolerance_ok(s, key, 0));
                assert(tolerance_ok(s, key, 1));
                assert(!tolerance_ok(s, key, 2));
                assert(first_failing_identifier(s, key));
                assert(stability_error(s, checked->Err_0));
                assert(stability_error(index.modules@, checked->Err_0));
            }
            return checked;
        }
        proof {
            assert(identifier_ok(s, key));
        }
        k = k + 1;
    }
    proof {
        assert forall|id: Seq<char>| catalog_has_identifier(s, id) implies identifier_ok(s, id) by {
            assert(views(ids@).contains(id));
            let j = choose|j: int| 0 <= j < views(ids@).len() && views(ids@)[j] == id;
            assert(views(ids@)[j] == ids@[j]@);
        }
    }
    Ok(())
}

// ---------------------------------------------------------------------------
// The catalog index report
// ---------------------------------------------------------------------------

pub open spec fn latest_module_pred() -> spec_fn(CatalogModule) -> bool {
    |m: CatalogModule| m.is_latest
}

pub open spec fn missing_identifier_pred() -> spec_fn(CatalogModule) -> bool {
    |m: CatalogModule| m.identifier@.len() == 0
}

pub open spec fn relationship_pred(kind: Seq<char>) -> spec_fn(CatalogRelation) -> bool {
    |rel: CatalogRelation| rel.relationship@ == kind
}

/// A catalog index passes validation: its schema version is 1 or 2, it lists
/// modules, and a schema-v2 index meets the stability rules.
pub open spec fn catalog_index_valid(index: CatalogIndex) -> bool {
    &&& index.schema_version == 1 || index.schema_version == 2
    &&& index.modules.len() > 0
    &&& index.schema_version == 2 ==> stability_ok(index.modules@)
}

/// The error that validation gives for an index.
pub open spec fn catalog_index_error(index: CatalogIndex, e: CatalogValidationError) -> bool {
    if !(index.schema_version == 1 || index.schema_version == 2) {
        e == CatalogValidationError::UnsupportedSchemaVersion { schema_version: index.schema_version }
    } else if index.modules.len() == 0 {
        e is NoModules
    } else {
        index.schema_version == 2 && stability_error(index.modules@, e)
    }
}

/// The counts that validation reports for a catalog index.
pub open spec fn catalog_report_of(
    r: CatalogIndexValidationReport,
    input: Seq<char>,
    index: CatalogIndex,
) -> bool {
    &&& r.input@ == input
    &&& r.schema_version == index.schema_version
    &&& r.modules == index.modules.len()
    &&& r.unique_identifiers == catalog_identifiers(index.modules@).to_set().len()
    &&& r.latest_modules == count_where(index.modules@, latest_module_pred())
    &&& r.relations == index.relations.len()
    &&& r.providers == index.providers.len()
    &&& r.missing_identifier == count_where(index.modules@, missing_identifier_pred())
    &&& r.dependency_edges == count_where(index.relations@, relationship_pred("depends"@))
    &&& r.recommendation_edges == count_where(index.relations@, relationship_pred("recommends"@))
    &&& r.suggestion_edges == count_where(index.relations@, relationship_pred("suggests"@))
    &&& r.conflict_edges == count_where(index.relations@, relationship_pred("conflicts"@))
    &&& r.provided_identifiers == index.providers.len()
}

/// Counts the relations of each kind: depends, recommends, suggests, conflicts.
fn count_relation_kinds(rels: &Vec<CatalogRelation>) -> (r: (usize, usize, usize, usize))
    ensures
        r.0 == count_where(rels@, relationship_pred("depends"@)),
        r.1 == count_where(rels@, relationship_pred("recommends"@)),
        r.2 == count_where(rels@, relationship_pred("suggests"@)),
        r.3 == count_where(rels@, relationship_pred("conflicts"@)),
{
    let mut d: usize = 0;
    let mut rc: usize = 0;
    let mut sg: usize = 0;
    let mut cf: usize = 0;
    let mut i: usize = 0;
    while i < rels.len()
        invariant
            i <= rels.len(),
            d == count_where(rels@.take(i as int), relationship_pred("depends"@)),
            rc == count_where(rels@.take(i as int), relationship_pred("recommends"@)),
            sg == count_where(rels@.take(i as int), relationship_pred("suggests"@)),
            cf == count_where(rels@.take(i as int), relationship_pred("conflicts"@)),
        decreases rels.len() - i,
    {
        proof {
            lemma_count_where_step(rels@, i as int, relationship_pred("depends"@));
            lemma_count_where_step(rels@, i as int, relationship_pred("recommends"@));
            lemma_count_where_step(rels@, i as int, relationship_pred("suggests"@));
            lemma_count_where_step(rels@, i as int, relationship_pred("conflicts"@));
            lemma_count_where_bound(rels@.take(i as int), relationship_pred("depends"@));
            lemma_count_where_bound(rels@.take(i as int), relationship_pred("recommends"@));
            lemma_count_where_bound(rels@.take(i as int), relationship_pred("suggests"@));
            lemma_count_where_bound(rels@.take(i as int), relationship_pred("conflicts"@));
        }
        let kind = rels[i].relationship.as_str();
        if text_eq(kind, "depends") {
            d = d + 1;
        }
        if text_eq(kind, "recommends") {
            rc = rc + 1;
        }
        if text_eq(kind, "suggests") {
            sg = sg + 1;
        }
        if text_eq(kind, "conflicts") {
            cf = cf + 1;
        }
        i = i + 1;
    }
    proof {
        assert(rels@.take(rels.len() as int) =~= rels@);
    }
    (d, rc, sg, cf)
}

/// Counts the latest modules and the modules without identifier.
fn count_module_marks(ms: &Vec<CatalogModule>) -> (r: (usize, usize))
    ensures
        r.0 == count_where(ms@, latest_module_pred()),
        r.1 == count_where(ms@, missing_identifier_pred()),
{
    let mut latest: usize = 0;
    let mut missing: usize = 0;
    let mut i: usize = 0;
    while i < ms.len()
        invariant
            i <= ms.len(),
            latest == count_where(ms@.take(i as int), latest_module_pred()),
            missing == count_where(ms@.take(i as int), missing_identifier_pred()),
        decreases ms.len() - i,
    {
        proof {
            lemma_count_where_step(ms@, i as int, latest_module_pred());
            lemma_count_where_step(ms@, i as int, missing_identifier_pred());
            lemma_count_where_bound(ms@.take(i as int), latest_module_pred());
            lemma_count_where_bound(ms@.take(i as int), missing_identifier_pred());
        }
        if ms[i].is_latest {
            latest = latest + 1;
        }
        if ms[i].identifier.as_str().is_empty() {
            missing = missing + 1;
        }
        i = i + 1;
    }
    proof {
        assert(ms@.take(ms.len() as int) =~= ms@);
    }
    (latest, missing)
}

/// Validates a catalog index read from `input` and reports its counts.
pub fn validate_catalog_index_file(input: &str, index: &CatalogIndex) -> (r: Result<
    CatalogIndexValidationReport,
    CatalogValidationError,
>)
    ensures
        r is Ok <==> catalog_index_valid(*index),
        r matches Ok(report) ==> catalog_report_of(report, input@, *index),
        r matches Err(e) ==> catalog_index_error(*index, e),
{
    if !(index.schema_version == 1 || index.schema_version == 2) {
        return Err(
            CatalogValidationError::UnsupportedSchemaVersion { schema_version: index.schema_version },
        );
    }
    if index.modules.len() == 0 {
        return Err(CatalogValidationError::NoModules);
    }
    if index.schema_version == 2 {
        match validate_schema_v2_stability(index) {
            Ok(()) => {},
            Err(e) => {
                proof {
                    lemma_stability_exclusive(index.modules@, e);
                }
                return Err(e);
            },
        }
    }
    let all_ids = collect_catalog_identifiers(&index.modules);
    let ids = distinct_texts(&all_ids);
    let (latest, missing) = count_module_marks(&index.modules);
    let (d, rc, sg, cf) = count_relation_kinds(&index.relations);
    Ok(
        CatalogIndexValidationReport {
            input: text_copy(input),
            schema_version: index.schema_version,
            modules: index.modules.len(),
            unique_identifiers: ids.len(),
            latest_modules: latest,
            relations: index.relations.len(),
            providers: index.providers.len(),
            missing_identifier: missing,
            dependency_edges: d,
            recommendation_edges: rc,
            suggestion_edges: sg,
            conflict_edges: cf,
            provided_identifiers: index.providers.len(),
        },
    )
}

/// A stability error and a passing stability check exclude each other.
proof fn lemma_stability_exclusive(ms: Seq<CatalogModule>, e: CatalogValidationError)
    requires
        stability_error(ms, e),
    ensures
        !stability_ok(ms),
{
    if stability_ok(ms) {
    match e {
        CatalogValidationError::InvalidReleaseStatus { .. } => {
            let i = choose|i: int| #[trigger] first_inconsistent_at(ms, i) && !valid_release_status(ms[i].release_status@);
            assert(module_consistent(ms[i]));
        },
        CatalogValidationError::LatestFlagsDisagree { .. } => {
            let i = choose|i: int| #[trigger] first_inconsistent_at(ms, i) && valid_release_status(ms[i].release_status@);
            assert(module_consistent(ms[i]));
        },
        CatalogValidationError::LatestCandidateCount { identifier, .. } => {
            assert(identifier_ok(ms, identifier@));
        },
        _ => {},
    }
    }
}

// ---------------------------------------------------------------------------
// Module summary exports
// ---------------------------------------------------------------------------

/// The identifiers that the summaries carry, empty ones included.
pub open spec fn summary_identifiers(ms: Seq<ModuleSummary>) -> Seq<Seq<char>>
    decreases ms.len(),
{
    if ms.len() == 0 {
        Seq::empty()
    } else {
        match ms.last().identifier {
            Some(id) => summary_identifiers(ms.drop_last()).push(id@),
            None => summary_identifiers(ms.drop_last()),
        }
    }
}

pub open spec fn summary_missing_pred() -> spec_fn(ModuleSummary) -> bool {
    |m: ModuleSummary|
        match m.identifier {
            Some(id) => id@.len() == 0,
            None => true,
        }
}

/// One of the summaries' edge counts: dependencies, recommendations,
/// suggestions, conflicts and provided identifiers.
pub open spec fn summary_edges(which: int) -> spec_fn(ModuleSummary) -> nat {
    |m: ModuleSummary|
        if which == 0 {
            m.dependency_edges as nat
        } else if which == 1 {
            m.recommendation_edges as nat
        } else if which == 2 {
            m.suggestion_edges as nat
        } else if which == 3 {
            m.conflict_edges as nat
        } else {
            m.provided_identifiers as nat
        }
}

/// The edge totals of the summaries fit in a `usize`.
pub open spec fn summary_sums_fit(ms: Seq<ModuleSummary>) -> bool {
    forall|w: int| 0 <= w < 5 ==> #[trigger] sum_of(ms, summary_edges(w)) <= usize::MAX
}

/// The counts that export validation reports.
pub open spec fn export_report_of(
    r: ExportValidationReport,
    input: Seq<char>,
    format: Seq<char>,
    schema_version: Option<u32>,
    ms: Seq<ModuleSummary>,
) -> bool {
    &&& r.input@ == input
    &&& r.format@ == format
    &&& r.schema_version == schema_version
    &&& r.modules == ms.len()
    &&& r.unique_identifiers == summary_identifiers(ms).to_set().len()
    &&& r.missing_identifier == count_where(ms, summary_missing_pred())
    &&& r.dependency_edges == sum_of(ms, summary_edges(0))
    &&& r.recommendation_edges == sum_of(ms, summary_edges(1))
    &&& r.suggestion_edges == sum_of(ms, summary_edges(2))
    &&& r.conflict_edges == sum_of(ms, summary_edges(3))
    &&& r.provided_identifiers == sum_of(ms, summary_edges(4))
}

fn collect_summary_identifiers(ms: &Vec<ModuleSummary>) -> (r: Vec<String>)
    ensures
        views(r@) == summary_identifiers(ms@),
{
    let mut out: Vec<String> = Vec::new();
    let mut i: usize = 0;
    while i < ms.len()
        invariant
            i <= ms.len(),
            views(out@) == summary_identifiers(ms@.take(i as int)),
        decreases ms.len() - i,
    {
        proof {
            assert(ms@.take(i + 1).drop_last() =~= ms@.take(i as int));
            assert(ms@.take(i + 1).last() == ms@[i as int]);
        }
        match &ms[i].identifier {
            Some(id) => {
                let ghost before = out@;
                out.push(id.clone());
                proof {
                    assert(views(out@) =~= views(before).push(id@));
                }
            },
            None => {},
        }
        i = i + 1;
    }
    proof {
        assert(ms@.take(ms.len() as int) =~= ms@);
    }
    out
}

/// The edge total of one kind over the summaries.
fn sum_edges(ms: &Vec<ModuleSummary>, which: usize) -> (r: usize)
    requires
        which < 5,
        summary_sums_fit(ms@),
    ensures
        r == sum_of(ms@, summary_edges(which as int)),
{
    let mut total: usize = 0;
    let mut i: usize = 0;
    proof {
        assert(sum_of(ms@, summary_edges(which as int)) <= usize::MAX);
    }
    while i < ms.len()
        invariant
            i <= ms.len(),
            which < 5,
            sum_of(ms@, summary_edges(which as int)) <= usize::MAX,
            total == sum_of(ms@.take(i as int), summary_edges(which as int)),
        decreases ms.len() - i,
    {
        proof {
            lemma_sum_of_step(ms@, i as int, summary_edges(which as int));
            lemma_sum_of_prefix_le(ms@, i + 1, summary_edges(which as int));
        }
        let m = &ms[i];
        let n = if which == 0 {
            m.dependency_edges
        } else if which == 1 {
            m.recommendation_edges
        } else if which == 2 {
            m.suggestion_edges
        } else if which == 3 {
            m.conflict_edges
        } else {
            m.provided_identifiers
        };
        total = total + n;
        i = i + 1;
    }
    proof {
        assert(ms@.take(ms.len() as int) =~= ms@);
    }
    total
}

/// Whether the edge total of one kind fits in a `usize`.
fn edges_fit(ms: &Vec<ModuleSummary>, which: usize) -> (r: bool)
    requires
        which < 5,
    ensures
        r == (sum_of(ms@, summary_edges(which as int)) <= usize::MAX),
{
    let mut total: usize = 0;
    let mut i: usize = 0;
    while i < ms.len()
        invariant
            i <= ms.len(),
            which < 5,
            total == sum_of(ms@.take(i as int), summary_edges(which as int)),
        decreases ms.len() - i,
    {
        proof {
            lemma_sum_of_step(ms@, i as int, summary_edges(which as int));
        }
        let m = &ms[i];
        let n = if which == 0 {
            m.dependency_edges
        } else if which == 1 {
            m.recommendation_edges
        } else if which == 2 {
            m.suggestion_edges
        } else if which == 3 {
            m.conflict_edges
        } else {
            m.provided_identifiers
        };
        match total.checked_add(n) {
            Some(t) => total = t,
            None => {
                proof {
                    lemma_sum_of_prefix_le(ms@, i + 1, summary_edges(which as int));
                }
                return false;
            },
        }
        i = i + 1;
    }
    proof {
        assert(ms@.take(ms.len() as int) =~= ms@);
    }
    true
}

/// Whether every edge total of the summaries fits in a `usize`, which
/// validating them asks.
pub fn summary_sums_within_limits(ms: &Vec<ModuleSummary>) -> (r: bool)
    ensures
        r == summary_sums_fit(ms@),
{
    let mut which: usize = 0;
    while which < 5
        invariant
            which <= 5,
            forall|w: int| 0 <= w < which ==> #[trigger] sum_of(ms@, summary_edges(w)) <= usize::MAX,
        decreases 5 - which,
    {
        if !edges_fit(ms, which) {
            return false;
        }
        which = which + 1;
    }
    true
}

/// Counts the summaries without an identifier, or with an empty one.
fn count_missing_summaries(ms: &Vec<ModuleSummary>) -> (r: usize)
    ensures
        r == count_where(ms@, summary_missing_pred()),
{
    let mut missing: usize = 0;
    let mut i: usize = 0;
    while i < ms.len()
        invariant
            i <= ms.len(),
            missing == count_where(ms@.take(i as int), summary_missing_pred()),
        decreases ms.len() - i,
    {
        proof {
            lemma_count_where_step(ms@, i as int, summary_missing_pred());
            lemma_count_where_bound(ms@.take(i as int), summary_missing_pred());
        }
        let absent = match &ms[i].identifier {
            Some(id) => id.as_str().is_empty(),
            None => true,
        };
        if absent {
            missing = missing + 1;
        }
        i = i + 1;
    }
    proof {
        assert(ms@.take(ms.len() as int) =~= ms@);
    }
    missing
}

/// The validation report of exported module summaries.
pub fn validation_report(
    input: &str,
    format: &str,
    schema_version: Option<u32>,
    modules: &Vec<ModuleSummary>,
) -> (r: ExportValidationReport)
    requires
        summary_sums_fit(modules@),
    ensures
        export_report_of(r, input@, format@, schema_version, modules@),
{
    let ids = collect_summary_identifiers(modules);
    let distinct = distinct_texts(&ids);
    ExportValidationReport {
        input: text_copy(input),
        format: text_copy(format),
        schema_version,
        modules: modules.len(),
        unique_identifiers: distinct.len(),
        missing_identifier: count_missing_summaries(modules),
        dependency_edges: sum_edges(modules, 0),
        recommendation_edges: sum_edges(modules, 1),
        suggestion_edges: sum_edges(modules, 2),
        conflict_edges: sum_edges(modules, 3),
        provided_identifiers: sum_edges(modules, 4),
    }
}

/// What an export file held: a JSON export package, or the module summaries
/// of a JSON Lines export.
pub enum ExportContents {
    Package(ExportPackage),
    JsonLines(Vec<ModuleSummary>),
}

/// The modules of an export.
pub open spec fn export_modules(contents: ExportContents) -> Seq<ModuleSummary> {
    match contents {
        ExportContents::Package(p) => p.modules@,
        ExportContents::JsonLines(ms) => ms@,
    }
}

/// Validates an export read from `input`: a package reports format `json`
/// and its schema version, JSON Lines report format `json-lines` and none.
pub fn validate_export_file(input: &str, contents: &ExportContents) -> (r: ExportValidationReport)
    requires
        summary_sums_fit(export_modules(*contents)),
    ensures
        match *contents {
            ExportContents::Package(p) => export_report_of(
                r,
                input@,
                "json"@,
                Some(p.schema_version),
                p.modules@,
            ),
            ExportContents::JsonLines(ms) => export_report_of(r, input@, "json-lines"@, None, ms@),
        },
{
    match contents {
        ExportContents::Package(package) => validation_report(
            input,
            "json",
            Some(package.schema_version),
            &package.modules,
        ),
        ExportContents::JsonLines(modules) => validation_report(input, "json-lines", None, modules),
    }
}

/// One line of a text as `BufRead::lines` gives it: a line that a newline
/// ends loses a carriage return before that newline.
pub open spec fn line_of(pieces: Seq<Seq<char>>, i: int) -> Seq<char> {
    let piece = pieces[i];
    if i < pieces.len() - 1 && piece.len() > 0 && piece.last() == '\r' {
        piece.drop_last()
    } else {
        piece
    }
}

/// The lines of a JSON Lines text that are not blank, in order.
pub open spec fn json_line_records(text: Seq<char>) -> Seq<Seq<char>> {
    nonblank_lines(split_spec(text, '\n'), split_spec(text, '\n').len() as int)
}

pub open spec fn nonblank_lines(pieces: Seq<Seq<char>>, n: int) -> Seq<Seq<char>>
    decreases n,
{
    if n <= 0 {
        Seq::empty()
    } else {
        let rest = nonblank_lines(pieces, n - 1);
        let line = line_of(pieces, n - 1);
        if trim_spec(line).len() == 0 {
            rest
        } else {
            rest.push(line)
        }
    }
}

/// The records of a JSON Lines text: its lines that are not blank.
pub fn json_lines_records(text: &str) -> (r: Vec<String>)
    ensures
        views(r@) == json_line_records(text@),
{
    let pieces = split_char(text, '\n');
    let ghost ps = split_spec(text@, '\n');
    let mut out: Vec<String> = Vec::new();
    let mut i: usize = 0;
    while i < pieces.len()
        invariant
            i <= pieces.len(),
            pieces.len() == ps.len(),
            ps == split_spec(text@, '\n'),
            forall|k: int| 0 <= k < pieces.len() ==> #[trigger] pieces@[k]@ == ps[k],
            views(out@) == nonblank_lines(ps, i as int),
        decreases pieces.len() - i,
    {
        let piece = &pieces[i];
        let chars = chars_of(piece.as_str());
        let line = if i + 1 < pieces.len() && chars.len() > 0 && chars[chars.len() - 1] == '\r' {
            string_from_range(&chars, 0, chars.len() - 1)
        } else {
            piece.clone()
        };
        proof {
            assert(pieces@[i as int]@ == ps[i as int]);
            if i + 1 < pieces.len() && chars.len() > 0 && chars@[chars.len() - 1] == '\r' {
                assert(line@ =~= ps[i as int].drop_last());
            }
            assert(line@ == line_of(ps, i as int));
        }
        if !is_blank(line.as_str()) {
            let ghost before = out@;
            out.push(line);
            proof {
                assert(views(out@) =~= views(before).push(line_of(ps, i as int)));
            }
        }
        i = i + 1;
    }
    out
}

/// Validating an export reports what the parse reported: the summaries of
/// the parsed modules carry the same identifiers, the same modules without
/// an identifier and the same edge totals as the modules they summarize.
pub proof fn lemma_export_matches_parse(summaries: Seq<ModuleSummary>, modules: Seq<ParsedModule>)
    requires
        summaries.len() == modules.len(),
        forall|k: int| 0 <= k < summaries.len() ==> summarizes(#[trigger] summaries[k], modules[k]),
    ensures
        summary_identifiers(summaries) == module_identifier_list(modules),
        count_where(summaries, summary_missing_pred()) == count_where(modules, module_flag_pred(3)),
        forall|w: int| 0 <= w < 5 ==> #[trigger] sum_of(summaries, summary_edges(w)) == sum_of(modules, module_edges(w)),
    decreases summaries.len(),
{
    if summaries.len() > 0 {
        let ps = summaries.drop_last();
        let pm = modules.drop_last();
        assert forall|k: int| 0 <= k < ps.len() implies summarizes(#[trigger] ps[k], pm[k]) by {
            assert(ps[k] == summaries[k]);
            assert(pm[k] == modules[k]);
        }
        lemma_export_matches_parse(ps, pm);
        assert(summarizes(summaries[summaries.len() - 1], modules[summaries.len() - 1]));
        assert(summaries.last().identifier matches Some(id) ==> modules.last().identifier matches Some(mid) && id@
            == mid@);
        assert forall|w: int| 0 <= w < 5 implies #[trigger] sum_of(summaries, summary_edges(w)) == sum_of(
            modules,
            module_edges(w),
        ) by {
            assert(sum_of(ps, summary_edges(w)) == sum_of(pm, module_edges(w)));
        }
    }
}

/// Validating the export package of a parse gives back the parse report's
/// counts: modules, unique identifiers, modules without an identifier and
/// every edge total.
pub proof fn lemma_export_validation_gives_report(
    v: ExportValidationReport,
    input: Seq<char>,
    package: ExportPackage,
    parsed: ArchiveParse,
    source: Seq<char>,
    kind: Seq<char>,
    loaded: ArchiveLoad,
    docs: Seq<Result<JsonValue, String>>,
)
    requires
        package.modules.len() == parsed.modules.len(),
        forall|k: int| 0 <= k < package.modules.len() ==> summarizes(#[trigger] package.modules@[k], parsed.modules@[k]),
        report_of(parsed.report, source, kind, loaded, docs, parsed.modules@),
        export_report_of(v, input, "json"@, Some(package.schema_version), package.modules@),
    ensures
        v.modules == parsed.report.parsed_modules,
        v.unique_identifiers == parsed.report.unique_identifiers,
        v.missing_identifier == parsed.report.missing_identifier,
        v.dependency_edges == parsed.report.dependency_edges,
        v.recommendation_edges == parsed.report.recommendation_edges,
        v.suggestion_edges == parsed.report.suggestion_edges,
        v.conflict_edges == parsed.report.conflict_edges,
        v.provided_identifiers == parsed.report.provided_identifiers,
{
    lemma_export_matches_parse(package.modules@, parsed.modules@);
    assert(sum_of(package.modules@, summary_edges(0)) == sum_of(parsed.modules@, module_edges(0)));
    assert(sum_of(package.modules@, summary_edges(1)) == sum_of(parsed.modules@, module_edges(1)));
    assert(sum_of(package.modules@, summary_edges(2)) == sum_of(parsed.modules@, module_edges(2)));
    assert(sum_of(package.modules@, summary_edges(3)) == sum_of(parsed.modules@, module_edges(3)));
    assert(sum_of(package.modules@, summary_edges(4)) == sum_of(parsed.modules@, module_edges(4)));
}

} // verus!
