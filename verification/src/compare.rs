//! Comparing the parses of two archives.

use vstd::prelude::*;

use crate::keymap::{find_text, strictly_ordered};
use crate::model::{has_text, has_text_spec, ArchiveParse, CompareDifference, CompareReport, ParseReport,
    ParsedModule};
use crate::module_entry::{join_spec, join_texts};
use crate::order::{lemma_lex_irreflexive, lemma_lex_sorted_unique, lex_lt, sort_dedup_strings, strictly_sorted, views};
use crate::text::{decimal_spec, decimal_text, push_text, text_copy, text_eq, usize_text};

verus! {

broadcast use vstd::seq_lib::group_to_multiset_ensures;

// ---------------------------------------------------------------------------
// Module fingerprints
// ---------------------------------------------------------------------------

/// An optional text, empty when absent.
pub open spec fn optional_text_spec(value: Option<String>) -> Seq<char> {
    match value {
        Some(t) => t@,
        None => Seq::empty(),
    }
}

/// An optional text, empty when absent.
pub fn optional_text(value: &Option<String>) -> (r: &str)
    ensures
        r@ == optional_text_spec(*value),
{
    proof {
        reveal_strlit("");
    }
    match value {
        Some(t) => t.as_str(),
        None => "",
    }
}

/// How `bool` displays.
pub open spec fn bool_text(b: bool) -> Seq<char> {
    if b {
        "true"@
    } else {
        "false"@
    }
}

fn bool_str(b: bool) -> (r: &'static str)
    ensures
        r@ == bool_text(b),
{
    if b {
        "true"
    } else {
        "false"
    }
}

/// A text that identifies a module's parsed content for comparison.
#[verifier::opaque]
pub open spec fn fingerprint_spec(m: ParsedModule) -> Seq<char> {
    "id="@ + optional_text_spec(m.identifier) + "|name="@ + optional_text_spec(m.name) + "|version="@
        + optional_text_spec(m.version) + "|spec="@ + optional_text_spec(m.spec_version)
        + "|abstract="@ + bool_text(has_text_spec(m.abstract_text)) + "|description="@ + bool_text(
        has_text_spec(m.description),
    ) + "|authors="@ + join_spec(views(m.authors@), ',') + "|licenses="@ + join_spec(
        views(m.licenses@),
        ',',
    ) + "|kind="@ + optional_text_spec(m.kind) + "|release_date="@ + optional_text_spec(
        m.release_date,
    ) + "|download_size="@ + decimal_spec(
        match m.download_size {
            Some(n) => n as nat,
            None => 0,
        },
    ) + "|author="@ + decimal_spec(m.author_count as nat) + "|license="@ + decimal_spec(
        m.license_count as nat,
    ) + "|resources="@ + decimal_spec(m.resource_count as nat) + "|install="@ + decimal_spec(
        m.install_steps as nat,
    ) + "|download="@ + bool_text(m.has_download) + "|ksp="@ + optional_text_spec(m.ksp_version)
        + "|ksp_min="@ + optional_text_spec(m.ksp_version_min) + "|ksp_max="@ + optional_text_spec(
        m.ksp_version_max,
    ) + "|depends="@ + decimal_spec(m.dependency_edges as nat) + ":"@ + join_spec(
        views(m.dependency_names@),
        ',',
    ) + "|recommends="@ + decimal_spec(m.recommendation_edges as nat) + ":"@ + join_spec(
        views(m.recommendation_names@),
        ',',
    ) + "|suggests="@ + decimal_spec(m.suggestion_edges as nat) + ":"@ + join_spec(
        views(m.suggestion_names@),
        ',',
    ) + "|conflicts="@ + decimal_spec(m.conflict_edges as nat) + ":"@ + join_spec(
        views(m.conflict_names@),
        ',',
    ) + "|provides="@ + decimal_spec(m.provided_identifiers as nat) + ":"@ + join_spec(
        views(m.provided_names@),
        ',',
    )
}

/// The fingerprint of a module.
pub fn module_fingerprint(m: &ParsedModule) -> (r: String)
    ensures
        r@ == fingerprint_spec(*m),
{
    reveal(fingerprint_spec);
    let mut s = text_copy("id=");
    push_text(&mut s, optional_text(&m.identifier));
    push_text(&mut s, "|name=");
    push_text(&mut s, optional_text(&m.name));
    push_text(&mut s, "|version=");
    push_text(&mut s, optional_text(&m.version));
    push_text(&mut s, "|spec=");
    push_text(&mut s, optional_text(&m.spec_version));
    push_text(&mut s, "|abstract=");
    push_text(&mut s, bool_str(has_text(&m.abstract_text)));
    push_text(&mut s, "|description=");
    push_text(&mut s, bool_str(has_text(&m.description)));
    push_text(&mut s, "|authors=");
    push_text(&mut s, join_texts(&m.authors, ',').as_str());
    push_text(&mut s, "|licenses=");
    push_text(&mut s, join_texts(&m.licenses, ',').as_str());
    push_text(&mut s, "|kind=");
    push_text(&mut s, optional_text(&m.kind));
    push_text(&mut s, "|release_date=");
    push_text(&mut s, optional_text(&m.release_date));
    push_text(&mut s, "|download_size=");
    let size = match m.download_size {
        Some(n) => n,
        None => 0,
    };
    push_text(&mut s, decimal_text(size).as_str());
    push_text(&mut s, "|author=");
    push_text(&mut s, usize_text(m.author_count).as_str());
    push_text(&mut s, "|license=");
    push_text(&mut s, usize_text(m.license_count).as_str());
    push_text(&mut s, "|resources=");
    push_text(&mut s, usize_text(m.resource_count).as_str());
    push_text(&mut s, "|install=");
    push_text(&mut s, usize_text(m.install_steps).as_str());
    push_text(&mut s, "|download=");
    push_text(&mut s, bool_str(m.has_download));
    push_text(&mut s, "|ksp=");
    push_text(&mut s, optional_text(&m.ksp_version));
    push_text(&mut s, "|ksp_min=");
    push_text(&mut s, optional_text(&m.ksp_version_min));
    push_text(&mut s, "|ksp_max=");
    push_text(&mut s, optional_text(&m.ksp_version_max));
    push_text(&mut s, "|depends=");
    push_text(&mut s, usize_text(m.dependency_edges).as_str());
    push_text(&mut s, ":");
    push_text(&mut s, join_texts(&m.dependency_names, ',').as_str());
    push_text(&mut s, "|recommends=");
    push_text(&mut s, usize_text(m.recommendation_edges).as_str());
    push_text(&mut s, ":");
    push_text(&mut s, join_texts(&m.recommendation_names, ',').as_str());
    push_text(&mut s, "|suggests=");
    push_text(&mut s, usize_text(m.suggestion_edges).as_str());
    push_text(&mut s, ":");
    push_text(&mut s, join_texts(&m.suggestion_names, ',').as_str());
    push_text(&mut s, "|conflicts=");
    push_text(&mut s, usize_text(m.conflict_edges).as_str());
    push_text(&mut s, ":");
    push_text(&mut s, join_texts(&m.conflict_names, ',').as_str());
    push_text(&mut s, "|provides=");
    push_text(&mut s, usize_text(m.provided_identifiers).as_str());
    push_text(&mut s, ":");
    push_text(&mut s, join_texts(&m.provided_names, ',').as_str());
    s
}

/// The fingerprints of the modules, in order.
pub open spec fn fingerprints_spec(ms: Seq<ParsedModule>) -> Seq<Seq<char>> {
    Seq::new(ms.len(), |i: int| fingerprint_spec(ms[i]))
}

/// The distinct fingerprints of the modules, in lexicographic order.
pub fn module_fingerprints(ms: &Vec<ParsedModule>) -> (r: Vec<String>)
    ensures
        strictly_sorted(views(r@)),
        views(r@).to_set() == fingerprints_spec(ms@).to_set(),
{
    let mut all: Vec<String> = Vec::new();
    let mut i: usize = 0;
    while i < ms.len()
        invariant
            i <= ms.len(),
            views(all@) == fingerprints_spec(ms@.take(i as int)),
        decreases ms.len() - i,
    {
        let f = module_fingerprint(&ms[i]);
        let ghost before = all@;
        all.push(f);
        proof {
            let t = ms@.take(i + 1);
            assert(views(all@) =~= views(before).push(f@));
            assert(fingerprints_spec(t) =~= fingerprints_spec(ms@.take(i as int)).push(fingerprint_spec(ms@[i as int])));
            assert(views(all@) =~= fingerprints_spec(t));
        }
        i = i + 1;
    }
    proof {
        assert(ms@.take(ms.len() as int) =~= ms@);
    }
    sort_dedup_strings(all)
}

// ---------------------------------------------------------------------------
// Differences
// ---------------------------------------------------------------------------

pub type DiffView = (Seq<char>, Seq<char>, Seq<char>);

pub open spec fn diff_view(d: CompareDifference) -> DiffView {
    (d.field@, d.left@, d.right@)
}

pub open spec fn diff_views(ds: Seq<CompareDifference>) -> Seq<DiffView> {
    ds.map_values(|d: CompareDifference| diff_view(d))
}

/// A difference of two numbers, shown in decimal, when they differ.
pub open spec fn value_diff(field: Seq<char>, left: nat, right: nat) -> Seq<DiffView> {
    if left != right {
        seq![(field, decimal_spec(left), decimal_spec(right))]
    } else {
        Seq::empty()
    }
}

/// An optional count as the comparison shows it: `-` when absent.
pub open spec fn optional_count_text(value: Option<usize>) -> Seq<char> {
    match value {
        Some(n) => decimal_spec(n as nat),
        None => "-"@,
    }
}

pub open spec fn option_diff(field: Seq<char>, left: Option<usize>, right: Option<usize>) -> Seq<DiffView> {
    if left != right {
        seq![(field, optional_count_text(left), optional_count_text(right))]
    } else {
        Seq::empty()
    }
}

/// The differences between two parse reports, field by field.
#[verifier::opaque]
pub open spec fn report_diffs(l: ParseReport, r: ParseReport) -> Seq<DiffView> {
    value_diff("relevant_entries"@, l.relevant_entries as nat, r.relevant_entries as nat)
        + value_diff("ckan_entries"@, l.ckan_entries as nat, r.ckan_entries as nat)
        + value_diff("parsed_modules"@, l.parsed_modules as nat, r.parsed_modules as nat)
        + value_diff("unique_identifiers"@, l.unique_identifiers as nat, r.unique_identifiers as nat)
        + value_diff("duplicate_identifiers"@, l.duplicate_identifiers as nat, r.duplicate_identifiers as nat)
        + value_diff("missing_identifier"@, l.missing_identifier as nat, r.missing_identifier as nat)
        + value_diff("dependency_edges"@, l.dependency_edges as nat, r.dependency_edges as nat)
        + value_diff("recommendation_edges"@, l.recommendation_edges as nat, r.recommendation_edges as nat)
        + value_diff("suggestion_edges"@, l.suggestion_edges as nat, r.suggestion_edges as nat)
        + value_diff("conflict_edges"@, l.conflict_edges as nat, r.conflict_edges as nat)
        + value_diff("provided_identifiers"@, l.provided_identifiers as nat, r.provided_identifiers as nat)
        + value_diff("modules_with_install"@, l.modules_with_install as nat, r.modules_with_install as nat)
        + value_diff("modules_with_resources"@, l.modules_with_resources as nat, r.modules_with_resources as nat)
        + value_diff("modules_with_download"@, l.modules_with_download as nat, r.modules_with_download as nat)
        + value_diff("parse_errors"@, l.parse_errors as nat, r.parse_errors as nat)
        + option_diff("download_counts"@, l.download_counts, r.download_counts)
        + option_diff("builds"@, l.builds, r.builds)
        + option_diff("repositories"@, l.repositories, r.repositories)
        + value_diff("bytes_read"@, l.bytes_read as nat, r.bytes_read as nat)
}

/// Records a difference of two counts.
pub fn compare_value(differences: &mut Vec<CompareDifference>, field: &str, left: u64, right: u64)
    ensures
        diff_views(final(differences)@) == diff_views(old(differences)@) + value_diff(
            field@,
            left as nat,
            right as nat,
        ),
{
    if left != right {
        let ghost before = differences@;
        differences.push(
            CompareDifference {
                field: text_copy(field),
                left: decimal_text(left),
                right: decimal_text(right),
            },
        );
        proof {
            assert(diff_views(differences@) =~= diff_views(before) + value_diff(
                field@,
                left as nat,
                right as nat,
            ));
        }
    } else {
        assert(diff_views(differences@) =~= diff_views(differences@) + value_diff(
            field@,
            left as nat,
            right as nat,
        ));
    }
}

/// Records a difference of two optional counts.
pub fn compare_option(
    differences: &mut Vec<CompareDifference>,
    field: &str,
    left: Option<usize>,
    right: Option<usize>,
)
    ensures
        diff_views(final(differences)@) == diff_views(old(differences)@) + option_diff(field@, left, right),
{
    if left != right {
        let ghost before = differences@;
        differences.push(
            CompareDifference {
                field: text_copy(field),
                left: crate::display::option_count(left),
                right: crate::display::option_count(right),
            },
        );
        proof {
            assert(diff_views(differences@) =~= diff_views(before) + option_diff(field@, left, right));
        }
    } else {
        assert(diff_views(differences@) =~= diff_views(differences@) + option_diff(field@, left, right));
    }
}

// ---------------------------------------------------------------------------
// Fingerprint samples
// ---------------------------------------------------------------------------

/// The elements of `l` that are not in `other`, in order.
pub open spec fn absent_from(l: Seq<Seq<char>>, other: Set<Seq<char>>) -> Seq<Seq<char>>
    decreases l.len(),
{
    if l.len() == 0 {
        Seq::empty()
    } else {
        let rest = absent_from(l.drop_last(), other);
        if other.contains(l.last()) {
            rest
        } else {
            rest.push(l.last())
        }
    }
}

/// The first `limit` items of a sequence.
pub open spec fn first_items(s: Seq<Seq<char>>, limit: nat) -> Seq<Seq<char>> {
    if s.len() <= limit {
        s
    } else {
        s.take(limit as int)
    }
}

proof fn lemma_strictly_sorted_ordered(s: Seq<String>)
    requires
        strictly_sorted(views(s)),
    ensures
        strictly_ordered::<String>(views(s)),
{
    assert forall|i: int, j: int| 0 <= i < j < views(s).len() implies crate::keymap::key_lt::<String>(
        #[trigger] views(s)[i],
        #[trigger] views(s)[j],
    ) by {
        lemma_lex_irreflexive(views(s)[i]);
    }
}

/// The first `limit` texts of `l` that `other` lacks.
fn first_absent(l: &Vec<String>, other: &Vec<String>, limit: usize) -> (r: Vec<String>)
    requires
        strictly_sorted(views(other@)),
    ensures
        views(r@) == first_items(absent_from(views(l@), views(other@).to_set()), limit as nat),
{
    proof {
        lemma_strictly_sorted_ordered(other@);
    }
    let ghost o = views(other@).to_set();
    let mut out: Vec<String> = Vec::new();
    let mut i: usize = 0;
    while i < l.len()
        invariant
            i <= l.len(),
            o == views(other@).to_set(),
            strictly_ordered::<String>(views(other@)),
            views(out@) == first_items(absent_from(views(l@).take(i as int), o), limit as nat),
        decreases l.len() - i,
    {
        let ghost prev = absent_from(views(l@).take(i as int), o);
        proof {
            assert(views(l@).take(i + 1).drop_last() =~= views(l@).take(i as int));
            assert(views(l@).take(i + 1).last() == l@[i as int]@);
        }
        let found = find_text(other, &l[i]);
        proof {
            match found {
                Some(k) => {
                    assert(views(other@)[k as int] == l@[i as int]@);
                    assert(o.contains(l@[i as int]@));
                },
                None => {
                    assert(!o.contains(l@[i as int]@)) by {
                        if o.contains(l@[i as int]@) {
                            let k = choose|k: int| 0 <= k < views(other@).len() && views(other@)[k] == l@[i as int]@;
                            assert(other@[k]@ == l@[i as int]@);
                        }
                    }
                },
            }
        }
        if found.is_none() && out.len() < limit {
            let ghost before = out@;
            out.push(l[i].clone());
            proof {
                assert(views(out@) =~= views(before).push(l@[i as int]@));
            }
        }
        proof {
            let next = absent_from(views(l@).take(i + 1), o);
            if found.is_none() {
                assert(next == prev.push(l@[i as int]@));
                if prev.len() >= limit {
                    assert(first_items(next, limit as nat) =~= first_items(prev, limit as nat));
                } else {
                    assert(first_items(next, limit as nat) =~= first_items(prev, limit as nat).push(
                        l@[i as int]@,
                    ));
                }
            } else {
                assert(next == prev);
            }
        }
        i = i + 1;
    }
    proof {
        assert(views(l@).take(l.len() as int) =~= views(l@));
    }
    out
}

/// Two strictly sorted sequences with the same elements are the same.
proof fn lemma_strictly_sorted_unique(a: Seq<Seq<char>>, b: Seq<Seq<char>>)
    requires
        strictly_sorted(a),
        strictly_sorted(b),
        a.to_set() == b.to_set(),
    ensures
        a == b,
{
    assert(a.no_duplicates()) by {
        assert forall|i: int, j: int| 0 <= i < a.len() && 0 <= j < a.len() && i != j implies a[i] != a[j] by {
            if i < j {
                assert(lex_lt(a[i], a[j]));
            } else {
                assert(lex_lt(a[j], a[i]));
            }
            lemma_lex_irreflexive(a[i]);
        }
    }
    assert(b.no_duplicates()) by {
        assert forall|i: int, j: int| 0 <= i < b.len() && 0 <= j < b.len() && i != j implies b[i] != b[j] by {
            if i < j {
                assert(lex_lt(b[i], b[j]));
            } else {
                assert(lex_lt(b[j], b[i]));
            }
            lemma_lex_irreflexive(b[i]);
        }
    }
    a.lemma_multiset_has_no_duplicates();
    b.lemma_multiset_has_no_duplicates();
    assert(a.to_multiset() =~= b.to_multiset()) by {
        assert forall|x: Seq<char>| a.to_multiset().count(x) == b.to_multiset().count(x) by {
            assert(a.to_set().contains(x) == a.contains(x));
            assert(b.to_set().contains(x) == b.contains(x));
        }
    }
    lemma_lex_sorted_unique(a, b);
}

/// Whether two string vectors hold the same texts in the same order.
fn same_texts(a: &Vec<String>, b: &Vec<String>) -> (r: bool)
    ensures
        r == (views(a@) == views(b@)),
{
    if a.len() != b.len() {
        proof {
            assert(views(a@).len() != views(b@).len());
        }
        return false;
    }
    let mut i: usize = 0;
    while i < a.len()
        invariant
            i <= a.len(),
            a.len() == b.len(),
            forall|k: int| 0 <= k < i ==> a@[k]@ == b@[k]@,
        decreases a.len() - i,
    {
        if !text_eq(a[i].as_str(), b[i].as_str()) {
            proof {
                assert(views(a@)[i as int] != views(b@)[i as int]);
            }
            return false;
        }
        i = i + 1;
    }
    proof {
        assert(views(a@) =~= views(b@));
    }
    true
}

/// The message that sums up one side's fingerprints.
pub open spec fn sample_message(unique: nat, samples: nat) -> Seq<char> {
    decimal_spec(unique) + " unique, "@ + decimal_spec(samples) + " sample-only"@
}

fn sample_text(unique: usize, samples: usize) -> (r: String)
    ensures
        r@ == sample_message(unique as nat, samples as nat),
{
    let mut s = usize_text(unique);
    push_text(&mut s, " unique, ");
    push_text(&mut s, usize_text(samples).as_str());
    push_text(&mut s, " sample-only");
    s
}

/// The differences between two parse reports, in field order.
fn report_differences(l: &ParseReport, rr: &ParseReport) -> (r: Vec<CompareDifference>)
    ensures
        diff_views(r@) == report_diffs(*l, *rr),
{
    let mut differences: Vec<CompareDifference> = Vec::new();
    compare_value(&mut differences, "relevant_entries", l.relevant_entries as u64, rr.relevant_entries as u64);
    proof {
        assert(diff_views(differences@) =~= value_diff(
            "relevant_entries"@,
            l.relevant_entries as nat,
            rr.relevant_entries as nat,
        ));
    }
    compare_value(&mut differences, "ckan_entries", l.ckan_entries as u64, rr.ckan_entries as u64);
    compare_value(&mut differences, "parsed_modules", l.parsed_modules as u64, rr.parsed_modules as u64);
    compare_value(
        &mut differences,
        "unique_identifiers",
        l.unique_identifiers as u64,
        rr.unique_identifiers as u64,
    );
    compare_value(
        &mut differences,
        "duplicate_identifiers",
        l.duplicate_identifiers as u64,
        rr.duplicate_identifiers as u64,
    );
    compare_value(
        &mut differences,
        "missing_identifier",
        l.missing_identifier as u64,
        rr.missing_identifier as u64,
    );
    compare_value(&mut differences, "dependency_edges", l.dependency_edges as u64, rr.dependency_edges as u64);
    compare_value(
        &mut differences,
        "recommendation_edges",
        l.recommendation_edges as u64,
        rr.recommendation_edges as u64,
    );
    compare_value(&mut differences, "suggestion_edges", l.suggestion_edges as u64, rr.suggestion_edges as u64);
    compare_value(&mut differences, "conflict_edges", l.conflict_edges as u64, rr.conflict_edges as u64);
    compare_value(
        &mut differences,
        "provided_identifiers",
        l.provided_identifiers as u64,
        rr.provided_identifiers as u64,
    );
    compare_value(
        &mut differences,
        "modules_with_install",
        l.modules_with_install as u64,
        rr.modules_with_install as u64,
    );
    compare_value(
        &mut differences,
        "modules_with_resources",
        l.modules_with_resources as u64,
        rr.modules_with_resources as u64,
    );
    compare_value(
        &mut differences,
        "modules_with_download",
        l.modules_with_download as u64,
        rr.modules_with_download as u64,
    );
    compare_value(&mut differences, "parse_errors", l.parse_errors as u64, rr.parse_errors as u64);
    compare_option(&mut differences, "download_counts", l.download_counts, rr.download_counts);
    compare_option(&mut differences, "builds", l.builds, rr.builds);
    compare_option(&mut differences, "repositories", l.repositories, rr.repositories);
    compare_value(&mut differences, "bytes_read", l.bytes_read, rr.bytes_read);
    proof {
        reveal(report_diffs);
    }
    differences
}

/// The comparison of two archives' parses: each differing report count,
/// a difference for differing module fingerprint sets, and up to twenty
/// fingerprints (in order) found on only one side.
pub open spec fn compare_report_of(r: CompareReport, left: ArchiveParse, right: ArchiveParse) -> bool {
    let lf = fingerprints_spec(left.modules@).to_set();
    let rf = fingerprints_spec(right.modules@).to_set();
    &&& r.left@ == left.report.archive@
    &&& r.right@ == right.report.archive@
    &&& exists|ls: Seq<Seq<char>>, rs: Seq<Seq<char>>|
        {
            &&& #[trigger] strictly_sorted(ls) && ls.to_set() == lf
            &&& #[trigger] strictly_sorted(rs) && rs.to_set() == rf
            &&& views(r.left_only_modules@) == first_items(absent_from(ls, rf), 20)
            &&& views(r.right_only_modules@) == first_items(absent_from(rs, lf), 20)
            &&& diff_views(r.differences@) == report_diffs(left.report, right.report) + if lf
                == rf {
                Seq::<DiffView>::empty()
            } else {
                seq![
                    (
                        "module_fingerprints"@,
                        sample_message(ls.len(), r.left_only_modules.len() as nat),
                        sample_message(rs.len(), r.right_only_modules.len() as nat),
                    ),
                ]
            }
        }
    &&& r.matching == (r.differences.len() == 0)
}

/// Compares the parses of two archives.
pub fn compare_archives(left: &ArchiveParse, right: &ArchiveParse) -> (r: CompareReport)
    ensures
        compare_report_of(r, *left, *right),
{
    let l = &left.report;
    let rr = &right.report;
    let mut differences = report_differences(l, rr);
    let left_modules = module_fingerprints(&left.modules);
    let right_modules = module_fingerprints(&right.modules);
    let left_only_modules = first_absent(&left_modules, &right_modules, 20);
    let right_only_modules = first_absent(&right_modules, &left_modules, 20);
    let ghost lf = fingerprints_spec(left.modules@).to_set();
    let ghost rf = fingerprints_spec(right.modules@).to_set();
    let same = same_texts(&left_modules, &right_modules);
    proof {
        if lf == rf {
            lemma_strictly_sorted_unique(views(left_modules@), views(right_modules@));
        }
    }
    let ghost base = differences@;
    if !same {
        differences.push(
            CompareDifference {
                field: text_copy("module_fingerprints"),
                left: sample_text(left_modules.len(), left_only_modules.len()),
                right: sample_text(right_modules.len(), right_only_modules.len()),
            },
        );
    }
    let matching = differences.len() == 0;
    let report = CompareReport {
        left: l.archive.clone(),
        right: rr.archive.clone(),
        matching,
        differences,
        left_only_modules,
        right_only_modules,
    };
    proof {
        let ls = views(left_modules@);
        let rs = views(right_modules@);
        assert(diff_views(report.differences@) =~= report_diffs(*l, *rr) + if lf == rf {
            Seq::<DiffView>::empty()
        } else {
            seq![
                (
                    "module_fingerprints"@,
                    sample_message(ls.len(), report.left_only_modules.len() as nat),
                    sample_message(rs.len(), report.right_only_modules.len() as nat),
                ),
            ]
        });
        assert(strictly_sorted(ls) && ls.to_set() == lf);
        assert(strictly_sorted(rs) && rs.to_set() == rf);
    }
    report
}

proof fn lemma_absent_from_covered(l: Seq<Seq<char>>, other: Set<Seq<char>>)
    requires
        forall|i: int| 0 <= i < l.len() ==> other.contains(#[trigger] l[i]),
    ensures
        absent_from(l, other) == Seq::<Seq<char>>::empty(),
    decreases l.len(),
{
    if l.len() > 0 {
        let p = l.drop_last();
        assert forall|i: int| 0 <= i < p.len() implies other.contains(#[trigger] p[i]) by {
            assert(p[i] == l[i]);
        }
        lemma_absent_from_covered(p, other);
        assert(other.contains(l[l.len() - 1]));
    }
}

/// Two parses match exactly when their reports agree on every compared
/// count and they hold the same module fingerprints; with the same
/// fingerprints, neither side lists modules of its own.
pub proof fn lemma_compare_matching(r: CompareReport, left: ArchiveParse, right: ArchiveParse)
    requires
        compare_report_of(r, left, right),
    ensures
        r.matching <==> (report_diffs(left.report, right.report).len() == 0 && fingerprints_spec(left.modules@).to_set()
            == fingerprints_spec(right.modules@).to_set()),
        fingerprints_spec(left.modules@).to_set() == fingerprints_spec(right.modules@).to_set() ==> r.left_only_modules.len()
            == 0 && r.right_only_modules.len() == 0,
{
    let lf = fingerprints_spec(left.modules@).to_set();
    let rf = fingerprints_spec(right.modules@).to_set();
    let (ls, rs) = choose|ls: Seq<Seq<char>>, rs: Seq<Seq<char>>|
        {
            &&& #[trigger] strictly_sorted(ls) && ls.to_set() == lf
            &&& #[trigger] strictly_sorted(rs) && rs.to_set() == rf
            &&& views(r.left_only_modules@) == first_items(absent_from(ls, rf), 20)
            &&& views(r.right_only_modules@) == first_items(absent_from(rs, lf), 20)
            &&& diff_views(r.differences@) == report_diffs(left.report, right.report) + if lf == rf {
                Seq::<DiffView>::empty()
            } else {
                seq![
                    (
                        "module_fingerprints"@,
                        sample_message(ls.len(), r.left_only_modules.len() as nat),
                        sample_message(rs.len(), r.right_only_modules.len() as nat),
                    ),
                ]
            }
        };
    assert(diff_views(r.differences@).len() == r.differences@.len());
    if lf == rf {
        assert forall|i: int| 0 <= i < ls.len() implies rf.contains(#[trigger] ls[i]) by {
            assert(ls.to_set().contains(ls[i]));
        }
        assert forall|i: int| 0 <= i < rs.len() implies lf.contains(#[trigger] rs[i]) by {
            assert(rs.to_set().contains(rs[i]));
        }
        lemma_absent_from_covered(ls, rf);
        lemma_absent_from_covered(rs, lf);
        assert(views(r.left_only_modules@).len() == 0);
        assert(views(r.right_only_modules@).len() == 0);
    }
}

/// A parse compared with itself matches, and neither side lists modules of
/// its own.
pub proof fn lemma_compare_self_matches(r: CompareReport, parsed: ArchiveParse)
    requires
        compare_report_of(r, parsed, parsed),
    ensures
        r.matching,
        r.left_only_modules.len() == 0,
        r.right_only_modules.len() == 0,
{
    lemma_compare_same_contents(r, parsed, parsed);
}

/// A difference with its two sides swapped.
pub open spec fn swap_diff(d: DiffView) -> DiffView {
    (d.0, d.2, d.1)
}

pub open spec fn swap_diffs(ds: Seq<DiffView>) -> Seq<DiffView> {
    ds.map_values(|d: DiffView| swap_diff(d))
}

proof fn lemma_swap_diffs_concat(a: Seq<DiffView>, b: Seq<DiffView>)
    ensures
        swap_diffs(a + b) == swap_diffs(a) + swap_diffs(b),
{
    assert(swap_diffs(a + b) =~= swap_diffs(a) + swap_diffs(b));
}

/// Swapping the two reports swaps the sides of each difference.
proof fn lemma_report_diffs_swap(l: ParseReport, r: ParseReport)
    ensures
        report_diffs(r, l) == swap_diffs(report_diffs(l, r)),
{
    reveal(report_diffs);
    assert forall|a: Seq<DiffView>, b: Seq<DiffView>| #[trigger] swap_diffs(a + b) == swap_diffs(a) + swap_diffs(b) by {
        lemma_swap_diffs_concat(a, b);
    }
    assert forall|f: Seq<char>, x: nat, y: nat| #[trigger] value_diff(f, y, x) == swap_diffs(value_diff(f, x, y)) by {
        assert(value_diff(f, y, x) =~= swap_diffs(value_diff(f, x, y)));
    }
    assert forall|f: Seq<char>, x: Option<usize>, y: Option<usize>| #[trigger] option_diff(f, y, x) == swap_diffs(
        option_diff(f, x, y),
    ) by {
        assert(option_diff(f, y, x) =~= swap_diffs(option_diff(f, x, y)));
    }
}

/// Comparing the two parses the other way round swaps the result: the
/// sides of each difference, and the modules found on one side only.
pub proof fn lemma_compare_swap(r1: CompareReport, r2: CompareReport, a: ArchiveParse, b: ArchiveParse)
    requires
        compare_report_of(r1, a, b),
        compare_report_of(r2, b, a),
    ensures
        r2.left@ == r1.right@,
        r2.right@ == r1.left@,
        r2.matching == r1.matching,
        diff_views(r2.differences@) == swap_diffs(diff_views(r1.differences@)),
        views(r2.left_only_modules@) == views(r1.right_only_modules@),
        views(r2.right_only_modules@) == views(r1.left_only_modules@),
{
    let af = fingerprints_spec(a.modules@).to_set();
    let bf = fingerprints_spec(b.modules@).to_set();
    let (ls1, rs1) = choose|ls: Seq<Seq<char>>, rs: Seq<Seq<char>>|
        {
            &&& #[trigger] strictly_sorted(ls) && ls.to_set() == af
            &&& #[trigger] strictly_sorted(rs) && rs.to_set() == bf
            &&& views(r1.left_only_modules@) == first_items(absent_from(ls, bf), 20)
            &&& views(r1.right_only_modules@) == first_items(absent_from(rs, af), 20)
            &&& diff_views(r1.differences@) == report_diffs(a.report, b.report) + if af == bf {
                Seq::<DiffView>::empty()
            } else {
                seq![
                    (
                        "module_fingerprints"@,
                        sample_message(ls.len(), r1.left_only_modules.len() as nat),
                        sample_message(rs.len(), r1.right_only_modules.len() as nat),
                    ),
                ]
            }
        };
    let (ls2, rs2) = choose|ls: Seq<Seq<char>>, rs: Seq<Seq<char>>|
        {
            &&& #[trigger] strictly_sorted(ls) && ls.to_set() == bf
            &&& #[trigger] strictly_sorted(rs) && rs.to_set() == af
            &&& views(r2.left_only_modules@) == first_items(absent_from(ls, af), 20)
            &&& views(r2.right_only_modules@) == first_items(absent_from(rs, bf), 20)
            &&& diff_views(r2.differences@) == report_diffs(b.report, a.report) + if bf == af {
                Seq::<DiffView>::empty()
            } else {
                seq![
                    (
                        "module_fingerprints"@,
                        sample_message(ls.len(), r2.left_only_modules.len() as nat),
                        sample_message(rs.len(), r2.right_only_modules.len() as nat),
                    ),
                ]
            }
        };
    lemma_strictly_sorted_unique(ls2, rs1);
    lemma_strictly_sorted_unique(rs2, ls1);
    assert(r2.left_only_modules.len() == views(r2.left_only_modules@).len());
    assert(r1.right_only_modules.len() == views(r1.right_only_modules@).len());
    assert(r2.right_only_modules.len() == views(r2.right_only_modules@).len());
    assert(r1.left_only_modules.len() == views(r1.left_only_modules@).len());
    lemma_report_diffs_swap(a.report, b.report);
    let tail1: Seq<DiffView> = if af == bf {
        Seq::<DiffView>::empty()
    } else {
        seq![
            (
                "module_fingerprints"@,
                sample_message(ls1.len(), r1.left_only_modules.len() as nat),
                sample_message(rs1.len(), r1.right_only_modules.len() as nat),
            ),
        ]
    };
    lemma_swap_diffs_concat(report_diffs(a.report, b.report), tail1);
    assert(swap_diffs(tail1) =~= (if bf == af {
        Seq::<DiffView>::empty()
    } else {
        seq![
            (
                "module_fingerprints"@,
                sample_message(ls2.len(), r2.left_only_modules.len() as nat),
                sample_message(rs2.len(), r2.right_only_modules.len() as nat),
            ),
        ]
    }));
    assert(diff_views(r1.differences@).len() == r1.differences.len());
    assert(diff_views(r2.differences@).len() == r2.differences.len());
}

/// Two reports agree on every count that a comparison looks at; their
/// timings may differ.
pub open spec fn compared_counts_agree(l: ParseReport, r: ParseReport) -> bool {
    &&& l.relevant_entries == r.relevant_entries
    &&& l.ckan_entries == r.ckan_entries
    &&& l.parsed_modules == r.parsed_modules
    &&& l.unique_identifiers == r.unique_identifiers
    &&& l.duplicate_identifiers == r.duplicate_identifiers
    &&& l.missing_identifier == r.missing_identifier
    &&& l.dependency_edges == r.dependency_edges
    &&& l.recommendation_edges == r.recommendation_edges
    &&& l.suggestion_edges == r.suggestion_edges
    &&& l.conflict_edges == r.conflict_edges
    &&& l.provided_identifiers == r.provided_identifiers
    &&& l.modules_with_install == r.modules_with_install
    &&& l.modules_with_resources == r.modules_with_resources
    &&& l.modules_with_download == r.modules_with_download
    &&& l.parse_errors == r.parse_errors
    &&& l.download_counts == r.download_counts
    &&& l.builds == r.builds
    &&& l.repositories == r.repositories
    &&& l.bytes_read == r.bytes_read
}

/// Two parses with the same counts and the same module fingerprints match,
/// whatever their timings, and neither side lists modules of its own.
pub proof fn lemma_compare_same_contents(r: CompareReport, left: ArchiveParse, right: ArchiveParse)
    requires
        compare_report_of(r, left, right),
        compared_counts_agree(left.report, right.report),
        fingerprints_spec(left.modules@).to_set() == fingerprints_spec(right.modules@).to_set(),
    ensures
        r.matching,
        r.differences.len() == 0,
        r.left_only_modules.len() == 0,
        r.right_only_modules.len() == 0,
{
    reveal(report_diffs);
    assert(report_diffs(left.report, right.report) =~= Seq::<DiffView>::empty());
    lemma_compare_matching(r, left, right);
}

} // verus!
