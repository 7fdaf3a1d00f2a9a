//! Parsing the same archive contents twice gives parses that compare as
//! matching.

use vstd::prelude::*;

use crate::archive::ArchiveLoad;
use crate::catalog::{has_identifier, identifier_count, module_identifier};
use crate::compare::{
    compare_report_of, compared_counts_agree, fingerprint_spec, fingerprints_spec, lemma_compare_same_contents,
    optional_text_spec,
};
use crate::counting::{count_where, lemma_count_where_agree, lemma_sum_of_agree, sum_of};
use crate::json::JsonValue;
use crate::keymap::lemma_strictly_ordered_unique;
use crate::model::{has_text_spec, ArchiveParse, CompareReport, IdentifierCount, ParsedModule};
use crate::order::opt_view;
use crate::parser::{
    duplicated_pred, identifier_counts_spec, lemma_parse_modules_agree, module_edges, module_flag_pred,
    module_identifier_list, modules_from_entries, report_of, same_views,
};

verus! {

/// Modules that agree by view, position by position.
pub open spec fn agree_by_view(m1: Seq<ParsedModule>, m2: Seq<ParsedModule>) -> bool {
    &&& m1.len() == m2.len()
    &&& forall|k: int| 0 <= k < m1.len() ==> same_views(#[trigger] m1[k], m2[k])
}

proof fn lemma_identifier_list_agree(m1: Seq<ParsedModule>, m2: Seq<ParsedModule>)
    requires
        agree_by_view(m1, m2),
    ensures
        module_identifier_list(m1) == module_identifier_list(m2),
    decreases m1.len(),
{
    if m1.len() > 0 {
        let (a, b) = (m1.drop_last(), m2.drop_last());
        assert forall|k: int| 0 <= k < a.len() implies same_views(#[trigger] a[k], b[k]) by {
            assert(a[k] == m1[k] && b[k] == m2[k]);
        }
        lemma_identifier_list_agree(a, b);
        assert(same_views(m1[m1.len() - 1], m2[m1.len() - 1]));
    }
}

proof fn lemma_identifier_count_agree(m1: Seq<ParsedModule>, m2: Seq<ParsedModule>, id: Seq<char>)
    requires
        agree_by_view(m1, m2),
    ensures
        identifier_count(m1, id) == identifier_count(m2, id),
        has_identifier(m1, id) == has_identifier(m2, id),
    decreases m1.len(),
{
    if m1.len() > 0 {
        let (a, b) = (m1.drop_last(), m2.drop_last());
        assert forall|k: int| 0 <= k < a.len() implies same_views(#[trigger] a[k], b[k]) by {
            assert(a[k] == m1[k] && b[k] == m2[k]);
        }
        lemma_identifier_count_agree(a, b, id);
        assert(same_views(m1[m1.len() - 1], m2[m1.len() - 1]));
    }
    if has_identifier(m1, id) {
        let j = choose|j: int| 0 <= j < m1.len() && module_identifier(#[trigger] m1[j]) == Some(id);
        assert(same_views(m1[j], m2[j]));
        assert(module_identifier(m2[j]) == Some(id));
    }
    if has_identifier(m2, id) {
        let j = choose|j: int| 0 <= j < m2.len() && module_identifier(#[trigger] m2[j]) == Some(id);
        assert(same_views(m1[j], m2[j]));
        assert(module_identifier(m1[j]) == Some(id));
    }
}

proof fn lemma_opt_text_alike(x: Option<String>, y: Option<String>)
    requires
        opt_view(x) == opt_view(y),
    ensures
        optional_text_spec(x) == optional_text_spec(y),
        has_text_spec(x) == has_text_spec(y),
{
    match (x, y) {
        (Some(a), Some(b)) => {
            assert(Some(a@) == Some(b@));
        },
        _ => {},
    }
}

proof fn lemma_fingerprint_alike(a: ParsedModule, b: ParsedModule)
    requires
        same_views(a, b),
    ensures
        fingerprint_spec(a) == fingerprint_spec(b),
{
    reveal(fingerprint_spec);
    lemma_opt_text_alike(a.identifier, b.identifier);
    lemma_opt_text_alike(a.name, b.name);
    lemma_opt_text_alike(a.version, b.version);
    lemma_opt_text_alike(a.spec_version, b.spec_version);
    lemma_opt_text_alike(a.abstract_text, b.abstract_text);
    lemma_opt_text_alike(a.description, b.description);
    lemma_opt_text_alike(a.kind, b.kind);
    lemma_opt_text_alike(a.release_date, b.release_date);
    lemma_opt_text_alike(a.ksp_version, b.ksp_version);
    lemma_opt_text_alike(a.ksp_version_min, b.ksp_version_min);
    lemma_opt_text_alike(a.ksp_version_max, b.ksp_version_max);
}

/// Modules that agree by view have the same fingerprints and give the same
/// counts, totals and identifier counts.
proof fn lemma_agreeing_modules_count_alike(
    m1: Seq<ParsedModule>,
    m2: Seq<ParsedModule>,
    c1: Seq<(usize, Seq<char>)>,
    c2: Seq<(usize, Seq<char>)>,
)
    requires
        agree_by_view(m1, m2),
        identifier_counts_spec(c1, m1),
        identifier_counts_spec(c2, m2),
    ensures
        fingerprints_spec(m1) == fingerprints_spec(m2),
        module_identifier_list(m1) == module_identifier_list(m2),
        forall|w: int| #[trigger] count_where(m1, module_flag_pred(w)) == count_where(m2, module_flag_pred(w)),
        forall|w: int| #[trigger] sum_of(m1, module_edges(w)) == sum_of(m2, module_edges(w)),
        c1 == c2,
{
    assert forall|k: int| 0 <= k < m1.len() implies fingerprint_spec(#[trigger] m1[k]) == fingerprint_spec(m2[k]) by {
        lemma_fingerprint_alike(m1[k], m2[k]);
    }
    assert(fingerprints_spec(m1) =~= fingerprints_spec(m2));
    lemma_identifier_list_agree(m1, m2);
    assert forall|w: int| #[trigger] count_where(m1, module_flag_pred(w)) == count_where(m2, module_flag_pred(w)) by {
        assert forall|k: int| 0 <= k < m1.len() implies module_flag_pred(w)(#[trigger] m1[k]) == module_flag_pred(w)(
            m2[k],
        ) by {
            assert(same_views(m1[k], m2[k]));
        }
        lemma_count_where_agree(m1, m2, module_flag_pred(w));
    }
    assert forall|w: int| #[trigger] sum_of(m1, module_edges(w)) == sum_of(m2, module_edges(w)) by {
        assert forall|k: int| 0 <= k < m1.len() implies module_edges(w)(#[trigger] m1[k]) == module_edges(w)(m2[k]) by {
            assert(same_views(m1[k], m2[k]));
        }
        lemma_sum_of_agree(m1, m2, module_edges(w));
    }
    assert forall|x: (usize, Seq<char>)| c1.contains(x) <==> c2.contains(x) by {
        lemma_identifier_count_agree(m1, m2, x.1);
        if c1.contains(x) {
            let k = choose|k: int| 0 <= k < c1.len() && c1[k] == x;
            assert(has_identifier(m1, c1[k].1));
            let l = choose|l: int| 0 <= l < c2.len() && #[trigger] c2[l].1 == x.1;
            assert(c2[l] == x);
        }
        if c2.contains(x) {
            let k = choose|k: int| 0 <= k < c2.len() && c2[k] == x;
            assert(has_identifier(m2, c2[k].1));
            let l = choose|l: int| 0 <= l < c1.len() && #[trigger] c1[l].1 == x.1;
            assert(c1[l] == x);
        }
    }
    lemma_strictly_ordered_unique::<IdentifierCount>(c1, c2);
}

/// Two parses of the same archive contents (the same loaded entries and
/// the same documents) compare as matching, whatever their timings and
/// names: no difference, and no modules on one side only.
pub proof fn lemma_same_input_parses_match(
    r: CompareReport,
    left: ArchiveParse,
    right: ArchiveParse,
    loaded: ArchiveLoad,
    docs: Seq<Result<JsonValue, String>>,
    left_name: Seq<char>,
    left_kind: Seq<char>,
    right_name: Seq<char>,
    right_kind: Seq<char>,
)
    requires
        modules_from_entries(left.modules@, loaded.entries@, docs),
        modules_from_entries(right.modules@, loaded.entries@, docs),
        report_of(left.report, left_name, left_kind, loaded, docs, left.modules@),
        report_of(right.report, right_name, right_kind, loaded, docs, right.modules@),
        compare_report_of(r, left, right),
    ensures
        r.matching,
        r.differences.len() == 0,
        r.left_only_modules.len() == 0,
        r.right_only_modules.len() == 0,
{
    let (m1, m2) = (left.modules@, right.modules@);
    lemma_parse_modules_agree(m1, m2, loaded.entries@, docs);
    let c1 = choose|counts: Seq<(usize, Seq<char>)>|
        {
            &&& identifier_counts_spec(counts, m1)
            &&& left.report.duplicate_identifiers == count_where(counts, duplicated_pred())
            &&& left.report.top_identifiers.len() == if counts.len() < 10 {
                counts.len() as int
            } else {
                10
            }
            &&& forall|k: int|
                0 <= k < left.report.top_identifiers.len() ==> (#[trigger] left.report.top_identifiers@[k])@
                    == counts[counts.len() - 1 - k]
        };
    let c2 = choose|counts: Seq<(usize, Seq<char>)>|
        {
            &&& identifier_counts_spec(counts, m2)
            &&& right.report.duplicate_identifiers == count_where(counts, duplicated_pred())
            &&& right.report.top_identifiers.len() == if counts.len() < 10 {
                counts.len() as int
            } else {
                10
            }
            &&& forall|k: int|
                0 <= k < right.report.top_identifiers.len() ==> (#[trigger] right.report.top_identifiers@[k])@
                    == counts[counts.len() - 1 - k]
        };
    lemma_agreeing_modules_count_alike(m1, m2, c1, c2);
    assert(count_where(m1, module_flag_pred(3)) == count_where(m2, module_flag_pred(3)));
    assert(count_where(m1, module_flag_pred(7)) == count_where(m2, module_flag_pred(7)));
    assert(count_where(m1, module_flag_pred(8)) == count_where(m2, module_flag_pred(8)));
    assert(count_where(m1, module_flag_pred(9)) == count_where(m2, module_flag_pred(9)));
    assert(sum_of(m1, module_edges(0)) == sum_of(m2, module_edges(0)));
    assert(sum_of(m1, module_edges(1)) == sum_of(m2, module_edges(1)));
    assert(sum_of(m1, module_edges(2)) == sum_of(m2, module_edges(2)));
    assert(sum_of(m1, module_edges(3)) == sum_of(m2, module_edges(3)));
    assert(sum_of(m1, module_edges(4)) == sum_of(m2, module_edges(4)));
    assert(compared_counts_agree(left.report, right.report));
    lemma_compare_same_contents(r, left, right);
}

} // verus!
