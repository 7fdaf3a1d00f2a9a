//! Turning the entries of a loaded archive into parsed modules and a report.

use vstd::prelude::*;

use crate::archive::{ArchiveLoad, TextEntry};
use crate::clock::{elapsed_since, millis, now};
use crate::counting::{count_where, distinct_texts, lemma_count_where_bound, lemma_count_where_step,
    lemma_sum_of_step, sum_of};
use crate::model::{has_text, has_text_spec, ArchiveParse, IdentifierCount, ParseError, ParseReport,
    ParsedModule};
use crate::text::text_copy;
use std::time::Instant;
use crate::module_entry::{minimal_module_error, minimal_module_ok, module_of_json, parse_module_entry};
use crate::order::{compare_opt_text, compare_text, lemma_lex_asymmetric, lemma_lex_irreflexive,
    lemma_lex_total, lemma_lex_transitive, lemma_opt_lex_facts, lex_le, lex_lt, opt_lex_lt, opt_view,
    sort_by_key, SortKey};
use crate::catalog::{download_count_of, download_counts_wf, has_identifier, identifier_count,
    identifier_counts_of, version_counts_by_identifier, DownloadCounts};
use crate::json::{get, get_spec, json_document, parse_json_text, value_to_u64, value_to_u64_spec, JsonMember,
    JsonValue};
use crate::keymap::{key_lt, key_position, lemma_insert_ordered, lemma_key_position_unique,
    search_key, strictly_ordered, StrictKey};
use crate::order::views;
use crate::text::{ends_with, ends_with_spec};

verus! {

broadcast use vstd::seq_lib::group_to_multiset_ensures;

// ---------------------------------------------------------------------------
// Special files: download counts, builds and repositories
// ---------------------------------------------------------------------------

/// The number of members of a parsed document that is an object.
pub open spec fn object_len_spec(doc: Result<JsonValue, String>) -> Option<usize> {
    match doc {
        Ok(JsonValue::Object { members, .. }) => Some(members.len()),
        _ => None,
    }
}

/// The number of items of an array or members of an object.
pub open spec fn collection_size_spec(value: JsonValue) -> Option<usize> {
    match value {
        JsonValue::Array { items, .. } => Some(items.len()),
        JsonValue::Object { members, .. } => Some(members.len()),
        _ => None,
    }
}

/// The size of the array or object under `key` of a parsed document, or of
/// the document itself when it has no such member.
pub open spec fn named_size_spec(doc: Result<JsonValue, String>, key: Seq<char>) -> Option<usize> {
    match doc {
        Ok(value) => match get_spec(value, key) {
            Some(nested) => collection_size_spec(nested),
            None => collection_size_spec(value),
        },
        Err(_) => None,
    }
}

/// The number of members of a parsed document that is an object.
pub fn object_document_len(doc: &Result<JsonValue, String>) -> (r: Option<usize>)
    ensures
        r == object_len_spec(*doc),
{
    match doc {
        Ok(JsonValue::Object { members, .. }) => Some(members.len()),
        _ => None,
    }
}

fn collection_size(value: &JsonValue) -> (r: Option<usize>)
    ensures
        r == collection_size_spec(*value),
{
    match value {
        JsonValue::Array { items, .. } => Some(items.len()),
        JsonValue::Object { members, .. } => Some(members.len()),
        _ => None,
    }
}

/// The size of the array or object under `key`, or of the whole document.
pub fn named_document_size(doc: &Result<JsonValue, String>, key: &str) -> (r: Option<
    usize,
>)
    ensures
        r == named_size_spec(*doc, key@),
{
    match doc {
        Ok(value) => match get(value, key) {
            Some(nested) => collection_size(nested),
            None => collection_size(value),
        },
        Err(_) => None,
    }
}

/// The JSON documents of the entries' texts, in order.
pub open spec fn documents_of(entries: Seq<TextEntry>) -> Seq<Result<JsonValue, String>> {
    entries.map_values(|e: TextEntry| json_document(e.contents@))
}

/// Parses the text of each entry as a JSON document.
pub fn parse_documents(entries: &Vec<TextEntry>) -> (r: Vec<Result<JsonValue, String>>)
    ensures
        r@ == documents_of(entries@),
{
    let mut docs: Vec<Result<JsonValue, String>> = Vec::new();
    let mut i: usize = 0;
    while i < entries.len()
        invariant
            i <= entries.len(),
            docs@ == documents_of(entries@.take(i as int)),
        decreases entries.len() - i,
    {
        docs.push(parse_json_text(entries[i].contents.as_str()));
        proof {
            assert(documents_of(entries@.take(i + 1)) =~= documents_of(entries@.take(i as int)).push(
                json_document(entries@[i as int].contents@),
            ));
        }
        i = i + 1;
    }
    proof {
        assert(entries@.take(entries.len() as int) =~= entries@);
    }
    docs
}

/// The number of members of a JSON object text, none when the text is not
/// a JSON object.
pub fn count_json_object(contents: &str) -> (r: Option<usize>)
    ensures
        r == object_len_spec(json_document(contents@)),
{
    object_document_len(&parse_json_text(contents))
}

/// The size of the array or object under `key` of a JSON text, or of the
/// whole document when it has no such member; none when the text is not
/// JSON.
pub fn count_json_named_array_or_object(contents: &str, key: &str) -> (r: Option<usize>)
    ensures
        r == named_size_spec(json_document(contents@), key@),
{
    named_document_size(&parse_json_text(contents), key)
}

/// The sizes of the special files of an archive.
pub struct SpecialCounts {
    pub download_counts: Option<usize>,
    pub builds: Option<usize>,
    pub repositories: Option<usize>,
}

/// The special-file sizes after reading the first `n` entries: each comes
/// from the last entry of its kind.
pub open spec fn special_counts_spec(
    entries: Seq<TextEntry>,
    docs: Seq<Result<JsonValue, String>>,
    n: int,
) -> (Option<usize>, Option<usize>, Option<usize>)
    decreases n,
{
    if n <= 0 {
        (None, None, None)
    } else {
        let c = special_counts_spec(entries, docs, n - 1);
        let path = entries[n - 1].path@;
        if ends_with_spec(path, "download_counts.json"@) {
            (object_len_spec(docs[n - 1]), c.1, c.2)
        } else if ends_with_spec(path, "builds.json"@) {
            (c.0, named_size_spec(docs[n - 1], "builds"@), c.2)
        } else if ends_with_spec(path, "repositories.json"@) {
            (c.0, c.1, named_size_spec(docs[n - 1], "repositories"@))
        } else {
            c
        }
    }
}

/// Reads the sizes of the download counts, builds and repositories files
/// from their parsed documents (`docs[i]` is the parse of `entries[i]`).
pub fn parse_special_entries(entries: &Vec<TextEntry>, docs: &Vec<Result<JsonValue, String>>) -> (r:
    SpecialCounts)
    requires
        docs.len() == entries.len(),
    ensures
        (r.download_counts, r.builds, r.repositories) == special_counts_spec(
            entries@,
            docs@,
            entries.len() as int,
        ),
{
    let mut counts = SpecialCounts { download_counts: None, builds: None, repositories: None };
    let mut i: usize = 0;
    while i < entries.len()
        invariant
            i <= entries.len(),
            docs.len() == entries.len(),
            (counts.download_counts, counts.builds, counts.repositories) == special_counts_spec(
                entries@,
                docs@,
                i as int,
            ),
        decreases entries.len() - i,
    {
        let path = entries[i].path.as_str();
        if ends_with(path, "download_counts.json") {
            counts.download_counts = object_document_len(&docs[i]);
        } else if ends_with(path, "builds.json") {
            counts.builds = named_document_size(&docs[i], "builds");
        } else if ends_with(path, "repositories.json") {
            counts.repositories = named_document_size(&docs[i], "repositories");
        }
        i = i + 1;
    }
    counts
}

/// The first entry that is the download counts file.
pub open spec fn first_download_counts_entry(entries: Seq<TextEntry>) -> Option<int>
    decreases entries.len(),
{
    if entries.len() == 0 {
        None
    } else {
        match first_download_counts_entry(entries.drop_last()) {
            Some(i) => Some(i),
            None => if ends_with_spec(entries.last().path@, "download_counts.json"@) {
                Some(entries.len() - 1)
            } else {
                None
            },
        }
    }
}

/// The count of an identifier among object members: the last member with
/// that key whose value reads as a count.
pub open spec fn member_count(members: Seq<JsonMember>, id: Seq<char>) -> Option<u64>
    decreases members.len(),
{
    if members.len() == 0 {
        None
    } else {
        let m = members.last();
        if m.key@ == id && value_to_u64_spec(m.value) is Some {
            value_to_u64_spec(m.value)
        } else {
            member_count(members.drop_last(), id)
        }
    }
}

/// The download count of an identifier that the archive's download counts
/// file gives: from the first such entry, when it parses as an object.
pub open spec fn archive_download_count(
    entries: Seq<TextEntry>,
    docs: Seq<Result<JsonValue, String>>,
    id: Seq<char>,
) -> Option<u64> {
    match first_download_counts_entry(entries) {
        Some(i) => match docs[i] {
            Ok(JsonValue::Object { members, .. }) => member_count(members@, id),
            _ => None,
        },
        None => None,
    }
}

proof fn lemma_first_download_counts_entry(entries: Seq<TextEntry>, n: int)
    requires
        0 <= n < entries.len(),
        first_download_counts_entry(entries.take(n)) is None,
    ensures
        first_download_counts_entry(entries.take(n + 1)) == if ends_with_spec(
            entries[n].path@,
            "download_counts.json"@,
        ) {
            Some(n)
        } else {
            None::<int>
        },
{
    assert(entries.take(n + 1).drop_last() =~= entries.take(n));
}

proof fn lemma_first_download_counts_found(entries: Seq<TextEntry>, n: int)
    requires
        0 <= n <= entries.len(),
        first_download_counts_entry(entries.take(n)) is Some,
    ensures
        first_download_counts_entry(entries) == first_download_counts_entry(entries.take(n)),
        first_download_counts_entry(entries)->0 < n,
    decreases entries.len() - n,
{
    if n < entries.len() {
        assert(entries.take(n + 1).drop_last() =~= entries.take(n));
        lemma_first_download_counts_found(entries, n + 1);
        assert(first_download_counts_entry(entries.take(n + 1)) == first_download_counts_entry(
            entries.take(n),
        ));
    } else {
        assert(entries.take(n) =~= entries);
    }
    lemma_first_download_range(entries.take(n));
}

proof fn lemma_first_download_range(entries: Seq<TextEntry>)
    ensures
        first_download_counts_entry(entries) matches Some(i) ==> 0 <= i < entries.len(),
    decreases entries.len(),
{
    if entries.len() > 0 {
        lemma_first_download_range(entries.drop_last());
    }
}

/// Builds download counts from object members, a later member of a key
/// replacing an earlier one.
fn counts_from_members(members: &Vec<JsonMember>) -> (r: DownloadCounts)
    ensures
        download_counts_wf(r),
        forall|id: Seq<char>| download_count_of(r, id) == member_count(members@, id),
{
    let mut ids: Vec<String> = Vec::new();
    let mut counts: Vec<u64> = Vec::new();
    let mut i: usize = 0;
    while i < members.len()
        invariant
            i <= members.len(),
            ids.len() == counts.len(),
            strictly_ordered::<String>(views(ids@)),
            forall|id: Seq<char>|
                #![trigger key_position(ids@, id)]
                match key_position(ids@, id) {
                    Some(k) => member_count(members@.take(i as int), id) == Some(counts@[k]),
                    None => member_count(members@.take(i as int), id) is None,
                },
        decreases members.len() - i,
    {
        let ghost prefix = members@.take(i as int);
        let ghost next = members@.take(i + 1);
        proof {
            assert(next.drop_last() =~= prefix);
            assert(next.last() == members@[i as int]);
        }
        let m = &members[i];
        match value_to_u64(&m.value) {
            Some(n) => {
                match search_key(&ids, &m.key) {
                    Ok(k) => {
                        proof {
                            lemma_key_position_unique(ids@, m.key@, k as int);
                        }
                        let ghost old_counts = counts@;
                        counts.set(k, n);
                        proof {
                            assert forall|id: Seq<char>|
                                #![trigger key_position(ids@, id)]
                                match key_position(ids@, id) {
                                    Some(q) => member_count(next, id) == Some(counts@[q]),
                                    None => member_count(next, id) is None,
                                } by {
                                if id != m.key@ {
                                    if let Some(q) = key_position(ids@, id) {
                                        assert(q != k);
                                        assert(counts@[q] == old_counts[q]);
                                    }
                                }
                            }
                        }
                    },
                    Err(p) => {
                        proof {
                            assert forall|q: int| 0 <= q < ids.len() implies #[trigger] ids@[q]@ != m.key@ by {
                                assert(views(ids@)[q] == ids@[q]@);
                                if q < p {
                                    assert(key_lt::<String>(ids@[q]@, m.key@));
                                } else {
                                    assert(key_lt::<String>(m.key@, ids@[q]@));
                                }
                            }
                            lemma_insert_ordered::<String>(ids@, p as int, m.key);
                        }
                        let ghost old_ids = ids@;
                        let ghost old_counts = counts@;
                        ids.insert(p, m.key.clone());
                        counts.insert(p, n);
                        proof {
                            lemma_key_position_unique(ids@, m.key@, p as int);
                            assert forall|id: Seq<char>|
                                #![trigger key_position(ids@, id)]
                                match key_position(ids@, id) {
                                    Some(q) => member_count(next, id) == Some(counts@[q]),
                                    None => member_count(next, id) is None,
                                } by {
                                if id != m.key@ {
                                    match key_position(ids@, id) {
                                        Some(q) => {
                                            assert(q != p);
                                            let oq = if q < p { q } else { q - 1 };
                                            assert(ids@[q] == old_ids[oq]);
                                            assert(counts@[q] == old_counts[oq]);
                                            lemma_key_position_unique(old_ids, id, oq);
                                        },
                                        None => {
                                            if let Some(oq) = key_position(old_ids, id) {
                                                let q = if oq < p { oq } else { oq + 1 };
                                                assert(ids@[q] == old_ids[oq]);
                                                assert(ids@[q]@ == id);
                                            }
                                        },
                                    }
                                }
                            }
                        }
                    },
                }
            },
            None => {},
        }
        i = i + 1;
    }
    proof {
        assert(members@.take(members.len() as int) =~= members@);
    }
    DownloadCounts { identifiers: ids, counts }
}

/// The download counts of an archive, read from the text of its first
/// `download_counts.json` entry.
pub fn parse_download_counts(entries: &Vec<TextEntry>) -> (r: DownloadCounts)
    ensures
        download_counts_wf(r),
        forall|id: Seq<char>| download_count_of(r, id) == archive_download_count(entries@, documents_of(entries@), id),
{
    let docs = parse_documents(entries);
    download_counts_of_documents(entries, &docs)
}

/// Reads the download counts of an archive, given the parsed document of
/// each entry: from the first download counts
/// entry, when its document is an object, the members whose value reads as
/// a count; none otherwise.
pub fn download_counts_of_documents(entries: &Vec<TextEntry>, docs: &Vec<Result<JsonValue, String>>) -> (r:
    DownloadCounts)
    requires
        docs.len() == entries.len(),
    ensures
        download_counts_wf(r),
        forall|id: Seq<char>| download_count_of(r, id) == archive_download_count(entries@, docs@, id),
{
    let mut i: usize = 0;
    while i < entries.len()
        invariant
            i <= entries.len(),
            docs.len() == entries.len(),
            first_download_counts_entry(entries@.take(i as int)) is None,
        decreases entries.len() - i,
    {
        proof {
            lemma_first_download_counts_entry(entries@, i as int);
        }
        if ends_with(entries[i].path.as_str(), "download_counts.json") {
            proof {
                lemma_first_download_counts_found(entries@, i + 1);
            }
            match &docs[i] {
                Ok(JsonValue::Object { members, .. }) => {
                    return counts_from_members(members);
                },
                _ => {
                    return DownloadCounts { identifiers: Vec::new(), counts: Vec::new() };
                },
            }
        }
        i = i + 1;
    }
    proof {
        assert(entries@.take(entries.len() as int) =~= entries@);
    }
    DownloadCounts { identifiers: Vec::new(), counts: Vec::new() }
}

// ---------------------------------------------------------------------------
// Parsing the `.ckan` entries
// ---------------------------------------------------------------------------

/// Whether an entry is a module's `.ckan` file.
pub open spec fn is_ckan(e: TextEntry) -> bool {
    ends_with_spec(e.path@, ".ckan"@)
}

/// Whether an entry is a module's `.ckan` file.
pub fn is_ckan_entry(entry: &TextEntry) -> (r: bool)
    ensures
        r == is_ckan(*entry),
{
    ends_with(entry.path.as_str(), ".ckan")
}

/// Whether a `.ckan` entry's document reads as a module.
pub open spec fn entry_parses(doc: Result<JsonValue, String>) -> bool {
    doc matches Ok(v) && minimal_module_ok(v)
}

/// The positions of the `.ckan` entries among the first `n`, and whether
/// to keep those that parse (`ok`) or those that do not.
pub open spec fn ckan_positions(
    entries: Seq<TextEntry>,
    docs: Seq<Result<JsonValue, String>>,
    n: int,
    ok: bool,
) -> Seq<int>
    decreases n,
{
    if n <= 0 {
        Seq::empty()
    } else {
        let rest = ckan_positions(entries, docs, n - 1, ok);
        if is_ckan(entries[n - 1]) && entry_parses(docs[n - 1]) == ok {
            rest.push(n - 1)
        } else {
            rest
        }
    }
}

proof fn lemma_ckan_positions_range(
    entries: Seq<TextEntry>,
    docs: Seq<Result<JsonValue, String>>,
    n: int,
    ok: bool,
)
    ensures
        forall|k: int|
            0 <= k < ckan_positions(entries, docs, n, ok).len() ==> 0 <= #[trigger] ckan_positions(
                entries,
                docs,
                n,
                ok,
            )[k] < n,
    decreases n,
{
    if n > 0 {
        lemma_ckan_positions_range(entries, docs, n - 1, ok);
        let rest = ckan_positions(entries, docs, n - 1, ok);
        let all = ckan_positions(entries, docs, n, ok);
        assert forall|k: int| 0 <= k < all.len() implies 0 <= #[trigger] all[k] < n by {
            if k < rest.len() {
                assert(all[k] == rest[k]);
            }
        }
    }
}

proof fn lemma_ckan_positions_increasing(
    entries: Seq<TextEntry>,
    docs: Seq<Result<JsonValue, String>>,
    n: int,
    ok: bool,
)
    ensures
        forall|a: int, b: int|
            0 <= a < b < ckan_positions(entries, docs, n, ok).len() ==> #[trigger] ckan_positions(
                entries,
                docs,
                n,
                ok,
            )[a] < #[trigger] ckan_positions(entries, docs, n, ok)[b],
    decreases n,
{
    if n > 0 {
        lemma_ckan_positions_increasing(entries, docs, n - 1, ok);
        lemma_ckan_positions_range(entries, docs, n - 1, ok);
        let rest = ckan_positions(entries, docs, n - 1, ok);
        let all = ckan_positions(entries, docs, n, ok);
        assert forall|a: int, b: int| 0 <= a < b < all.len() implies #[trigger] all[a] < #[trigger] all[b] by {
            assert(all[a] == rest[a]);
            if b < rest.len() {
                assert(all[b] == rest[b]);
            }
        }
    }
}

/// The number of `.ckan` entries among the first `n`.
pub open spec fn ckan_count(entries: Seq<TextEntry>, n: int) -> nat
    decreases n,
{
    if n <= 0 {
        0
    } else {
        ckan_count(entries, n - 1) + if is_ckan(entries[n - 1]) {
            1nat
        } else {
            0nat
        }
    }
}

proof fn lemma_ckan_count_bound(entries: Seq<TextEntry>, n: int)
    ensures
        ckan_count(entries, n) <= if n < 0 {
            0
        } else {
            n
        },
    decreases n,
{
    if n > 0 {
        lemma_ckan_count_bound(entries, n - 1);
    }
}

/// `e` is the parse error reported for entry `q`.
pub open spec fn error_of_entry(
    e: ParseError,
    entries: Seq<TextEntry>,
    docs: Seq<Result<JsonValue, String>>,
    q: int,
) -> bool {
    &&& e.path@ == entries[q].path@
    &&& e.error@ == match docs[q] {
        Err(message) => message@,
        Ok(v) => minimal_module_error(v),
    }
}

/// A module together with its position in the parse order.
pub struct Ranked {
    pub position: usize,
    pub module: ParsedModule,
}

impl View for Ranked {
    type V = (usize, ParsedModule);

    open spec fn view(&self) -> (usize, ParsedModule) {
        (self.position, self.module)
    }
}

/// The order in which parsed modules are listed: by identifier, then
/// version, then path, `None` before any text.
pub open spec fn module_key_lt(a: ParsedModule, b: ParsedModule) -> bool {
    ||| opt_lex_lt(opt_view(a.identifier), opt_view(b.identifier))
    ||| opt_view(a.identifier) == opt_view(b.identifier) && opt_lex_lt(
        opt_view(a.version),
        opt_view(b.version),
    )
    ||| opt_view(a.identifier) == opt_view(b.identifier) && opt_view(a.version) == opt_view(
        b.version,
    ) && lex_lt(a.path@, b.path@)
}

pub open spec fn module_key_same(a: ParsedModule, b: ParsedModule) -> bool {
    opt_view(a.identifier) == opt_view(b.identifier) && opt_view(a.version) == opt_view(b.version)
        && a.path@ == b.path@
}

/// Module `a` at position `i` comes before module `b` at position `j`:
/// by key, and by position among equal keys (a stable sort).
pub open spec fn ranked_lt(i: int, a: ParsedModule, j: int, b: ParsedModule) -> bool {
    module_key_lt(a, b) || (module_key_same(a, b) && i < j)
}

proof fn lemma_module_key_facts(a: ParsedModule, b: ParsedModule, c: ParsedModule)
    ensures
        !module_key_lt(a, a),
        module_key_same(a, b) || module_key_lt(a, b) || module_key_lt(b, a),
        !(module_key_lt(a, b) && module_key_lt(b, a)),
        !(module_key_lt(a, b) && module_key_same(a, b)),
        module_key_lt(a, b) && module_key_lt(b, c) ==> module_key_lt(a, c),
        module_key_lt(a, b) && module_key_same(b, c) ==> module_key_lt(a, c),
        module_key_same(a, b) && module_key_lt(b, c) ==> module_key_lt(a, c),
{
    lemma_opt_lex_facts(opt_view(a.identifier), opt_view(b.identifier), opt_view(c.identifier));
    lemma_opt_lex_facts(opt_view(a.version), opt_view(b.version), opt_view(c.version));
    lemma_lex_irreflexive(a.path@);
    lemma_lex_total(a.path@, b.path@);
    lemma_lex_asymmetric(a.path@, b.path@);
    if lex_lt(a.path@, b.path@) && lex_lt(b.path@, c.path@) {
        lemma_lex_transitive(a.path@, b.path@, c.path@);
    }
}

impl SortKey for Ranked {
    open spec fn key_le(a: (usize, ParsedModule), b: (usize, ParsedModule)) -> bool {
        module_key_lt(a.1, b.1) || (module_key_same(a.1, b.1) && a.0 <= b.0)
    }

    proof fn lemma_key_total(a: (usize, ParsedModule), b: (usize, ParsedModule)) {
        lemma_module_key_facts(a.1, b.1, b.1);
    }

    proof fn lemma_key_transitive(
        a: (usize, ParsedModule),
        b: (usize, ParsedModule),
        c: (usize, ParsedModule),
    ) {
        lemma_module_key_facts(a.1, b.1, c.1);
    }

    fn key_le_exec(&self, other: &Self) -> (r: bool) {
        let a = &self.module;
        let b = &other.module;
        let c = compare_opt_text(&a.identifier, &b.identifier);
        if c != 0 {
            return c < 0;
        }
        let c = compare_opt_text(&a.version, &b.version);
        if c != 0 {
            return c < 0;
        }
        let c = compare_text(a.path.as_str(), b.path.as_str());
        if c != 0 {
            return c < 0;
        }
        self.position <= other.position
    }
}

/// `dst` lists the modules of `src` in the order `p` gives, which sorts
/// them by key and keeps modules of equal key in their input order.
pub open spec fn sorted_arrangement(p: Seq<int>, src: Seq<ParsedModule>, dst: Seq<ParsedModule>) -> bool {
    &&& p.len() == src.len()
    &&& dst.len() == src.len()
    &&& forall|k: int| 0 <= k < p.len() ==> 0 <= #[trigger] p[k] < src.len() && dst[k] == src[p[k]]
    &&& forall|k: int, l: int|
        0 <= k < l < p.len() ==> ranked_lt(#[trigger] p[k], src[p[k]], #[trigger] p[l], src[p[l]])
}

/// `dst` is `src` sorted stably by identifier, version and path.
pub open spec fn stably_sorted(src: Seq<ParsedModule>, dst: Seq<ParsedModule>) -> bool {
    exists|p: Seq<int>| sorted_arrangement(p, src, dst)
}

/// The modules ranked by their positions `0..n`.
pub open spec fn ranked_views(src: Seq<ParsedModule>) -> Seq<(usize, ParsedModule)> {
    Seq::new(src.len(), |i: int| (i as usize, src[i]))
}

/// Sorts modules by identifier, version and path, keeping the input
/// order among modules with the same key.
pub fn sort_modules(ranked: Vec<Ranked>, Ghost(src): Ghost<Seq<ParsedModule>>) -> (r: Vec<ParsedModule>)
    requires
        src.len() <= usize::MAX,
        views(ranked@) == ranked_views(src),
    ensures
        stably_sorted(src, r@),
{
    let n = ranked.len();
    proof {
        let input = views(ranked@);
        assert(input.no_duplicates()) by {
            assert forall|a: int, b: int| 0 <= a < input.len() && 0 <= b < input.len() && a != b
                implies input[a] != input[b] by {
                assert(input[a].0 == a as usize);
                assert(input[b].0 == b as usize);
            }
        }
        input.lemma_multiset_has_no_duplicates();
    }
    let sorted = sort_by_key(ranked);
    let ghost out = views(sorted@);
    proof {
        assert forall|x: (usize, ParsedModule)| out.to_multiset().contains(x) implies out.to_multiset().count(x) == 1 by {
            assert(views(ranked@).to_multiset().contains(x));
        }
        out.lemma_multiset_has_no_duplicates_conv();
        // each ranked module sits at its position
        assert forall|k: int| 0 <= k < out.len() implies (#[trigger] out[k]).0 < src.len() && out[k].1
            == src[out[k].0 as int] by {
            assert(out.to_multiset().contains(out[k]));
            assert(views(ranked@).contains(out[k]));
            let i = choose|i: int| 0 <= i < views(ranked@).len() && views(ranked@)[i] == out[k];
            assert(ranked_views(src)[i] == (i as usize, src[i]));
        }
    }
    // move the modules out, keeping the sorted order
    let mut sorted = sorted;
    let mut reversed: Vec<ParsedModule> = Vec::new();
    while sorted.len() > 0
        invariant
            sorted.len() + reversed.len() == out.len(),
            views(sorted@) == out.take(sorted.len() as int),
            forall|k: int| 0 <= k < reversed.len() ==> #[trigger] reversed@[k] == out[out.len() - 1 - k].1,
        decreases sorted.len(),
    {
        let ghost before = sorted@;
        let x = sorted.pop().unwrap();
        proof {
            assert(before =~= sorted@.push(x));
            assert(views(before)[before.len() - 1] == x@);
            assert(views(sorted@) =~= out.take(sorted.len() as int));
        }
        reversed.push(x.module);
    }
    let mut result: Vec<ParsedModule> = Vec::new();
    while reversed.len() > 0
        invariant
            reversed.len() + result.len() == out.len(),
            forall|k: int| 0 <= k < reversed.len() ==> #[trigger] reversed@[k] == out[out.len() - 1 - k].1,
            forall|k: int| 0 <= k < result.len() ==> #[trigger] result@[k] == out[k].1,
        decreases reversed.len(),
    {
        let ghost before = reversed@;
        let m = reversed.pop().unwrap();
        proof {
            assert(m == before[before.len() - 1]);
        }
        result.push(m);
    }
    proof {
        let p = Seq::new(out.len(), |k: int| out[k].0 as int);
        assert(out.len() == src.len()) by {
            vstd::seq_lib::to_multiset_len(out);
            vstd::seq_lib::to_multiset_len(views(ranked@));
        }
        assert forall|k: int, l: int| 0 <= k < l < p.len() implies ranked_lt(
            #[trigger] p[k],
            src[p[k]],
            #[trigger] p[l],
            src[p[l]],
        ) by {
            assert(Ranked::key_le(out[k], out[l]));
            if out[k].0 == out[l].0 {
                assert(out[k] == out[l]);
            }
        }
        assert(sorted_arrangement(p, src, result@));
    }
    result
}

/// Reads the `.ckan` entries (`docs[i]` is the parse of `entries[i]`): the
/// modules that parse, ranked in entry order, the errors of those that do
/// not, and the number of `.ckan` entries.
pub fn parse_ckan_entries(entries: &Vec<TextEntry>, docs: &Vec<Result<JsonValue, String>>) -> (r: (
    Vec<Ranked>,
    Vec<ParseError>,
    usize,
))
    requires
        docs.len() == entries.len(),
    ensures
        ({
            let (ranked, errors, count) = r;
            let ok = ckan_positions(entries@, docs@, entries.len() as int, true);
            let bad = ckan_positions(entries@, docs@, entries.len() as int, false);
            &&& count == ckan_count(entries@, entries.len() as int)
            &&& ranked.len() == ok.len()
            &&& forall|k: int| 0 <= k < ranked.len() ==> {
                &&& (#[trigger] ranked@[k]).position == k
                &&& module_of_json(ranked@[k].module, entries@[ok[k]].path@, docs@[ok[k]]->Ok_0)
            }
            &&& errors.len() == bad.len()
            &&& forall|k: int| 0 <= k < errors.len() ==> error_of_entry(#[trigger] errors@[k], entries@, docs@, bad[k])
        }),
{
    let mut ranked: Vec<Ranked> = Vec::new();
    let mut errors: Vec<ParseError> = Vec::new();
    let mut count: usize = 0;
    let mut i: usize = 0;
    while i < entries.len()
        invariant
            i <= entries.len(),
            docs.len() == entries.len(),
            count == ckan_count(entries@, i as int),
            ranked.len() == ckan_positions(entries@, docs@, i as int, true).len(),
            errors.len() == ckan_positions(entries@, docs@, i as int, false).len(),
            forall|k: int| 0 <= k < ranked.len() ==> {
                let q = ckan_positions(entries@, docs@, i as int, true)[k];
                &&& (#[trigger] ranked@[k]).position == k
                &&& module_of_json(ranked@[k].module, entries@[q].path@, docs@[q]->Ok_0)
            },
            forall|k: int| 0 <= k < errors.len() ==> {
                let q = ckan_positions(entries@, docs@, i as int, false)[k];
                error_of_entry(#[trigger] errors@[k], entries@, docs@, q)
            },
        decreases entries.len() - i,
    {
        proof {
            lemma_ckan_count_bound(entries@, i as int);
            lemma_ckan_positions_range(entries@, docs@, i + 1, true);
            lemma_ckan_positions_range(entries@, docs@, i + 1, false);
        }
        let entry = &entries[i];
        if is_ckan_entry(entry) {
            count = count + 1;
            let ghost old_ranked = ranked@;
            let ghost old_errors = errors@;
            match parse_module_entry(entry, &docs[i]) {
                Ok(module) => {
                    let position = ranked.len();
                    ranked.push(Ranked { position, module });
                    proof {
                        assert(entry_parses(docs@[i as int]));
                        assert(ckan_positions(entries@, docs@, i + 1, false) == ckan_positions(entries@, docs@, i as int, false));
                        assert(errors@ == old_errors);
                        assert forall|k: int| 0 <= k < errors.len() implies {
                            let q = ckan_positions(entries@, docs@, i + 1, false)[k];
                            error_of_entry(#[trigger] errors@[k], entries@, docs@, q)
                        } by {
                            assert(errors@[k] == old_errors[k]);
                        }
                        assert forall|k: int| 0 <= k < ranked.len() implies {
                            let q = ckan_positions(entries@, docs@, i + 1, true)[k];
                            &&& (#[trigger] ranked@[k]).position == k
                            &&& module_of_json(ranked@[k].module, entries@[q].path@, docs@[q]->Ok_0)
                        } by {
                            if k < old_ranked.len() {
                                assert(ranked@[k] == old_ranked[k]);
                            }
                        }
                    }
                },
                Err(error) => {
                    proof {
                        assert(error_of_entry(error, entries@, docs@, i as int));
                    }
                    errors.push(error);
                    proof {
                        assert(!entry_parses(docs@[i as int]));
                        assert(ckan_positions(entries@, docs@, i + 1, true) == ckan_positions(entries@, docs@, i as int, true));
                        assert forall|k: int| 0 <= k < errors.len() implies {
                            let q = ckan_positions(entries@, docs@, i + 1, false)[k];
                            error_of_entry(#[trigger] errors@[k], entries@, docs@, q)
                        } by {
                            if k < old_errors.len() {
                                assert(errors@[k] == old_errors[k]);
                            }
                        }
                    }
                },
            }
        } else {
            proof {
                assert(!is_ckan(entries@[i as int]));
                assert(ckan_positions(entries@, docs@, i + 1, false) == ckan_positions(entries@, docs@, i as int, false));
                assert forall|k: int| 0 <= k < errors.len() implies {
                    let q = ckan_positions(entries@, docs@, i + 1, false)[k];
                    error_of_entry(#[trigger] errors@[k], entries@, docs@, q)
                } by {
                }
                assert(ckan_positions(entries@, docs@, i + 1, true) == ckan_positions(entries@, docs@, i as int, true));
            }
        }
        i = i + 1;
    }
    (ranked, errors, count)
}

// ---------------------------------------------------------------------------
// Identifier counts
// ---------------------------------------------------------------------------

impl View for IdentifierCount {
    type V = (usize, Seq<char>);

    open spec fn view(&self) -> (usize, Seq<char>) {
        (self.versions, self.identifier@)
    }
}

/// Identifier counts sort by number of versions, then by identifier.
impl SortKey for IdentifierCount {
    open spec fn key_le(a: (usize, Seq<char>), b: (usize, Seq<char>)) -> bool {
        a.0 < b.0 || (a.0 == b.0 && lex_le(a.1, b.1))
    }

    proof fn lemma_key_total(a: (usize, Seq<char>), b: (usize, Seq<char>)) {
        lemma_lex_total(a.1, b.1);
    }

    proof fn lemma_key_transitive(a: (usize, Seq<char>), b: (usize, Seq<char>), c: (usize, Seq<char>)) {
        if lex_lt(a.1, b.1) && lex_lt(b.1, c.1) {
            lemma_lex_transitive(a.1, b.1, c.1);
        }
    }

    fn key_le_exec(&self, other: &Self) -> (r: bool) {
        if self.versions != other.versions {
            self.versions < other.versions
        } else {
            compare_text(self.identifier.as_str(), other.identifier.as_str()) <= 0
        }
    }
}

impl StrictKey for IdentifierCount {
    proof fn lemma_key_antisymmetric(a: (usize, Seq<char>), b: (usize, Seq<char>)) {
        lemma_lex_asymmetric(a.1, b.1);
    }
}

/// `counts` lists each identifier of the modules once with its number of
/// versions, in increasing order of (versions, identifier).
pub open spec fn identifier_counts_spec(counts: Seq<(usize, Seq<char>)>, modules: Seq<ParsedModule>) -> bool {
    &&& strictly_ordered::<IdentifierCount>(counts)
    &&& forall|k: int|
        0 <= k < counts.len() ==> has_identifier(modules, (#[trigger] counts[k]).1) && counts[k].0
            == identifier_count(modules, counts[k].1)
    &&& forall|id: Seq<char>|
        has_identifier(modules, id) ==> exists|k: int| 0 <= k < counts.len() && #[trigger] counts[k].1 == id
}

/// The identifiers of the modules with their numbers of versions, sorted by
/// number of versions and then identifier.
pub fn identifier_counts(modules: &Vec<ParsedModule>) -> (r: Vec<IdentifierCount>)
    ensures
        identifier_counts_spec(views(r@), modules@),
{
    let counted = version_counts_by_identifier(modules.as_slice());
    let mut pairs: Vec<IdentifierCount> = Vec::new();
    let mut k: usize = 0;
    while k < counted.identifiers.len()
        invariant
            k <= counted.identifiers.len(),
            identifier_counts_of(counted, modules@),
            pairs.len() == k,
            forall|j: int| 0 <= j < k ==> (#[trigger] pairs@[j])@ == (counted.counts@[j], counted.identifiers@[j]@),
        decreases counted.identifiers.len() - k,
    {
        let ghost before = pairs@;
        pairs.push(IdentifierCount { identifier: counted.identifiers[k].clone(), versions: counted.counts[k] });
        proof {
            assert forall|j: int| 0 <= j < k + 1 implies (#[trigger] pairs@[j])@ == (counted.counts@[j], counted.identifiers@[j]@) by {
                if j < k {
                    assert(pairs@[j] == before[j]);
                }
            }
        }
        k = k + 1;
    }
    let ghost input = views(pairs@);
    proof {
        assert(input.no_duplicates()) by {
            assert forall|a: int, b: int| 0 <= a < input.len() && 0 <= b < input.len() && a != b implies input[a] != input[b] by {
                assert(input[a] == pairs@[a]@);
                assert(input[b] == pairs@[b]@);
                assert(views(counted.identifiers@)[a] == counted.identifiers@[a]@);
                assert(views(counted.identifiers@)[b] == counted.identifiers@[b]@);
                if a < b {
                    assert(key_lt::<String>(views(counted.identifiers@)[a], views(counted.identifiers@)[b]));
                } else {
                    assert(key_lt::<String>(views(counted.identifiers@)[b], views(counted.identifiers@)[a]));
                }
            }
        }
        input.lemma_multiset_has_no_duplicates();
    }
    let sorted = sort_by_key(pairs);
    proof {
        let out = views(sorted@);
        assert forall|x: (usize, Seq<char>)| out.to_multiset().contains(x) implies out.to_multiset().count(x) == 1 by {
            assert(input.to_multiset().contains(x));
        }
        out.lemma_multiset_has_no_duplicates_conv();
        assert forall|a: int, b: int| 0 <= a < b < out.len() implies key_lt::<IdentifierCount>(#[trigger] out[a], #[trigger] out[b]) by {
            assert(IdentifierCount::key_le(out[a], out[b]));
        }
        assert forall|k: int| 0 <= k < out.len() implies has_identifier(modules@, (#[trigger] out[k]).1) && out[k].0
            == identifier_count(modules@, out[k].1) by {
            assert(out.to_multiset().contains(out[k]));
            assert(input.contains(out[k]));
            let j = choose|j: int| 0 <= j < input.len() && input[j] == out[k];
            assert(input[j] == pairs@[j]@);
            assert(views(counted.identifiers@)[j] == counted.identifiers@[j]@);
            assert(views(counted.identifiers@).contains(counted.identifiers@[j]@));
        }
        assert forall|id: Seq<char>| has_identifier(modules@, id) implies exists|k: int| 0 <= k < out.len() && #[trigger] out[k].1 == id by {
            assert(views(counted.identifiers@).contains(id));
            let j = choose|j: int| 0 <= j < views(counted.identifiers@).len() && views(counted.identifiers@)[j] == id;
            assert(input[j] == pairs@[j]@);
            assert(input.to_multiset().contains(input[j]));
            assert(out.contains(input[j]));
            let k = choose|k: int| 0 <= k < out.len() && out[k] == input[j];
            assert(out[k].1 == id);
        }
    }
    sorted
}

// ---------------------------------------------------------------------------
// The parse report
// ---------------------------------------------------------------------------

/// The module properties that the report counts: 0 named, 1 versioned,
/// 2 spec-versioned, 3 missing identifier, 4 abstract, 5 author, 6 license,
/// 7 install steps, 8 resources, 9 download, 10-12 KSP version, minimum and
/// maximum.
pub open spec fn module_flag(m: ParsedModule, w: int) -> bool {
    if w == 0 {
        has_text_spec(m.name)
    } else if w == 1 {
        has_text_spec(m.version)
    } else if w == 2 {
        has_text_spec(m.spec_version)
    } else if w == 3 {
        !has_text_spec(m.identifier)
    } else if w == 4 {
        has_text_spec(m.abstract_text)
    } else if w == 5 {
        m.author_count > 0
    } else if w == 6 {
        m.license_count > 0
    } else if w == 7 {
        m.install_steps > 0
    } else if w == 8 {
        m.resource_count > 0
    } else if w == 9 {
        m.has_download
    } else if w == 10 {
        has_text_spec(m.ksp_version)
    } else if w == 11 {
        has_text_spec(m.ksp_version_min)
    } else {
        has_text_spec(m.ksp_version_max)
    }
}

pub open spec fn module_flag_pred(w: int) -> spec_fn(ParsedModule) -> bool {
    |m: ParsedModule| module_flag(m, w)
}

/// The relationship edge counts that the report totals: 0 dependencies,
/// 1 recommendations, 2 suggestions, 3 conflicts, 4 provided identifiers.
pub open spec fn module_edges(w: int) -> spec_fn(ParsedModule) -> nat {
    |m: ParsedModule|
        if w == 0 {
            m.dependency_edges as nat
        } else if w == 1 {
            m.recommendation_edges as nat
        } else if w == 2 {
            m.suggestion_edges as nat
        } else if w == 3 {
            m.conflict_edges as nat
        } else {
            m.provided_identifiers as nat
        }
}

/// A total, capped at the largest `usize`.
pub open spec fn saturated(n: nat) -> usize {
    if n > usize::MAX {
        usize::MAX
    } else {
        n as usize
    }
}

fn module_flag_exec(m: &ParsedModule, w: usize) -> (r: bool)
    ensures
        r == module_flag(*m, w as int),
{
    if w == 0 {
        has_text(&m.name)
    } else if w == 1 {
        has_text(&m.version)
    } else if w == 2 {
        has_text(&m.spec_version)
    } else if w == 3 {
        !has_text(&m.identifier)
    } else if w == 4 {
        has_text(&m.abstract_text)
    } else if w == 5 {
        m.author_count > 0
    } else if w == 6 {
        m.license_count > 0
    } else if w == 7 {
        m.install_steps > 0
    } else if w == 8 {
        m.resource_count > 0
    } else if w == 9 {
        m.has_download
    } else if w == 10 {
        has_text(&m.ksp_version)
    } else if w == 11 {
        has_text(&m.ksp_version_min)
    } else {
        has_text(&m.ksp_version_max)
    }
}

fn module_edges_exec(m: &ParsedModule, w: usize) -> (r: usize)
    ensures
        r as nat == (module_edges(w as int))(*m),
{
    if w == 0 {
        m.dependency_edges
    } else if w == 1 {
        m.recommendation_edges
    } else if w == 2 {
        m.suggestion_edges
    } else if w == 3 {
        m.conflict_edges
    } else {
        m.provided_identifiers
    }
}

/// Counts the modules with each reported property, and totals their edges.
fn tally_modules(ms: &Vec<ParsedModule>) -> (r: (Vec<usize>, Vec<usize>))
    ensures
        r.0.len() == 13,
        forall|w: int| 0 <= w < 13 ==> #[trigger] r.0@[w] == count_where(ms@, module_flag_pred(w)),
        r.1.len() == 5,
        forall|w: int| 0 <= w < 5 ==> #[trigger] r.1@[w] == saturated(sum_of(ms@, module_edges(w))),
{
    let mut counts: Vec<usize> = Vec::new();
    let mut w: usize = 0;
    while w < 13
        invariant
            w <= 13,
            counts.len() == w,
            forall|v: int| 0 <= v < w ==> #[trigger] counts@[v] == 0,
        decreases 13 - w,
    {
        counts.push(0);
        w = w + 1;
    }
    let mut sums: Vec<usize> = Vec::new();
    let mut w: usize = 0;
    while w < 5
        invariant
            w <= 5,
            sums.len() == w,
            forall|v: int| 0 <= v < w ==> #[trigger] sums@[v] == 0,
        decreases 5 - w,
    {
        sums.push(0);
        w = w + 1;
    }
    let mut i: usize = 0;
    while i < ms.len()
        invariant
            i <= ms.len(),
            counts.len() == 13,
            sums.len() == 5,
            forall|v: int| 0 <= v < 13 ==> #[trigger] counts@[v] == count_where(ms@.take(i as int), module_flag_pred(v)),
            forall|v: int| 0 <= v < 5 ==> #[trigger] sums@[v] == saturated(sum_of(ms@.take(i as int), module_edges(v))),
        decreases ms.len() - i,
    {
        let m = &ms[i];
        let mut w: usize = 0;
        while w < 13
            invariant
                i < ms.len(),
                *m == ms@[i as int],
                w <= 13,
                counts.len() == 13,
                forall|v: int| 0 <= v < w ==> #[trigger] counts@[v] == count_where(ms@.take(i + 1), module_flag_pred(v)),
                forall|v: int| w <= v < 13 ==> #[trigger] counts@[v] == count_where(ms@.take(i as int), module_flag_pred(v)),
            decreases 13 - w,
        {
            proof {
                lemma_count_where_step(ms@, i as int, module_flag_pred(w as int));
                lemma_count_where_bound(ms@.take(i as int), module_flag_pred(w as int));
            }
            let c = counts[w];
            let ghost before = counts@;
            if module_flag_exec(m, w) {
                counts.set(w, c + 1);
            }
            proof {
                assert forall|v: int| 0 <= v < w + 1 implies #[trigger] counts@[v] == count_where(ms@.take(i + 1), module_flag_pred(v)) by {
                    if v < w {
                        assert(counts@[v] == before[v]);
                    }
                }
                assert forall|v: int| w + 1 <= v < 13 implies #[trigger] counts@[v] == count_where(ms@.take(i as int), module_flag_pred(v)) by {
                    assert(counts@[v] == before[v]);
                }
            }
            w = w + 1;
        }
        let mut w: usize = 0;
        while w < 5
            invariant
                i < ms.len(),
                *m == ms@[i as int],
                w <= 5,
                sums.len() == 5,
                forall|v: int| 0 <= v < w ==> #[trigger] sums@[v] == saturated(sum_of(ms@.take(i + 1), module_edges(v))),
                forall|v: int| w <= v < 5 ==> #[trigger] sums@[v] == saturated(sum_of(ms@.take(i as int), module_edges(v))),
            decreases 5 - w,
        {
            proof {
                lemma_sum_of_step(ms@, i as int, module_edges(w as int));
            }
            let c = sums[w];
            let ghost before = sums@;
            let e = module_edges_exec(m, w);
            sums.set(w, c.saturating_add(e));
            proof {
                assert forall|v: int| 0 <= v < w + 1 implies #[trigger] sums@[v] == saturated(sum_of(ms@.take(i + 1), module_edges(v))) by {
                    if v < w {
                        assert(sums@[v] == before[v]);
                    }
                }
                assert forall|v: int| w + 1 <= v < 5 implies #[trigger] sums@[v] == saturated(sum_of(ms@.take(i as int), module_edges(v))) by {
                    assert(sums@[v] == before[v]);
                }
            }
            w = w + 1;
        }
        i = i + 1;
    }
    proof {
        assert(ms@.take(ms.len() as int) =~= ms@);
    }
    (counts, sums)
}

/// The identifiers that the modules carry, empty ones included.
pub open spec fn module_identifier_list(ms: Seq<ParsedModule>) -> Seq<Seq<char>>
    decreases ms.len(),
{
    if ms.len() == 0 {
        Seq::empty()
    } else {
        match ms.last().identifier {
            Some(id) => module_identifier_list(ms.drop_last()).push(id@),
            None => module_identifier_list(ms.drop_last()),
        }
    }
}

fn collect_module_identifiers(ms: &Vec<ParsedModule>) -> (r: Vec<String>)
    ensures
        views(r@) == module_identifier_list(ms@),
{
    let mut out: Vec<String> = Vec::new();
    let mut i: usize = 0;
    while i < ms.len()
        invariant
            i <= ms.len(),
            views(out@) == module_identifier_list(ms@.take(i as int)),
        decreases ms.len() - i,
    {
        proof {
            assert(ms@.take(i + 1).drop_last() =~= ms@.take(i as int));
            assert(ms@.take(i + 1).last() == ms@[i as int]);
        }
        match &ms[i].identifier {
            Some(id) => {
                let ghost before = out@;
                out.push(id.clone());
                proof {
                    assert(views(out@) =~= views(before).push(id@));
                }
            },
            None => {},
        }
        i = i + 1;
    }
    proof {
        assert(ms@.take(ms.len() as int) =~= ms@);
    }
    out
}

pub open spec fn duplicated_pred() -> spec_fn((usize, Seq<char>)) -> bool {
    |c: (usize, Seq<char>)| c.0 > 1
}

/// The number of identifiers with more than one version, and the ten with
/// the most versions, most first.
fn duplicates_and_top(counts: &Vec<IdentifierCount>) -> (r: (usize, Vec<IdentifierCount>))
    ensures
        r.0 == count_where(views(counts@), duplicated_pred()),
        r.1.len() == if counts.len() < 10 {
            counts.len()
        } else {
            10
        },
        forall|k: int| 0 <= k < r.1.len() ==> (#[trigger] r.1@[k])@ == counts@[counts.len() - 1 - k]@,
{
    let mut duplicates: usize = 0;
    let mut i: usize = 0;
    while i < counts.len()
        invariant
            i <= counts.len(),
            duplicates == count_where(views(counts@).take(i as int), duplicated_pred()),
        decreases counts.len() - i,
    {
        proof {
            lemma_count_where_step(views(counts@), i as int, duplicated_pred());
            lemma_count_where_bound(views(counts@).take(i as int), duplicated_pred());
        }
        if counts[i].versions > 1 {
            duplicates = duplicates + 1;
        }
        i = i + 1;
    }
    proof {
        assert(views(counts@).take(counts.len() as int) =~= views(counts@));
    }
    let mut top: Vec<IdentifierCount> = Vec::new();
    let n = counts.len();
    while top.len() < 10 && top.len() < n
        invariant
            n == counts.len(),
            top.len() <= 10,
            top.len() <= n,
            forall|k: int| 0 <= k < top.len() ==> (#[trigger] top@[k])@ == counts@[n - 1 - k]@,
        decreases n - top.len(),
    {
        let k = top.len();
        let ghost before = top@;
        let c = &counts[n - 1 - k];
        top.push(IdentifierCount { identifier: c.identifier.clone(), versions: c.versions });
        proof {
            assert forall|j: int| 0 <= j < top.len() implies (#[trigger] top@[j])@ == counts@[n - 1 - j]@ by {
                if j < k {
                    assert(top@[j] == before[j]);
                }
            }
        }
    }
    (duplicates, top)
}

/// `modules` are the modules that the `.ckan` entries parse into, sorted
/// stably by identifier, version and path.
pub open spec fn modules_from_entries(
    modules: Seq<ParsedModule>,
    entries: Seq<TextEntry>,
    docs: Seq<Result<JsonValue, String>>,
) -> bool {
    exists|src: Seq<ParsedModule>|
        {
            let ok = ckan_positions(entries, docs, entries.len() as int, true);
            &&& src.len() == ok.len()
            &&& forall|k: int|
                0 <= k < src.len() ==> module_of_json(
                    #[trigger] src[k],
                    entries[ok[k]].path@,
                    docs[ok[k]]->Ok_0,
                )
            &&& #[trigger] stably_sorted(src, modules)
        }
}

/// `q` gives, for each module, the entry that it was parsed from; no two
/// modules come from the same entry.
pub open spec fn entry_sources(
    q: Seq<int>,
    modules: Seq<ParsedModule>,
    entries: Seq<TextEntry>,
    docs: Seq<Result<JsonValue, String>>,
) -> bool {
    &&& q.len() == modules.len()
    &&& forall|i: int|
        0 <= i < q.len() ==> 0 <= #[trigger] q[i] < entries.len() && module_of_json(
            modules[i],
            entries[q[i]].path@,
            docs[q[i]]->Ok_0,
        )
    &&& forall|i: int, j: int| 0 <= i < q.len() && 0 <= j < q.len() && i != j ==> #[trigger] q[i] != #[trigger] q[j]
}

/// Each parsed module comes from an entry of its own.
pub proof fn lemma_modules_have_entry_sources(
    modules: Seq<ParsedModule>,
    entries: Seq<TextEntry>,
    docs: Seq<Result<JsonValue, String>>,
)
    requires
        modules_from_entries(modules, entries, docs),
    ensures
        exists|q: Seq<int>| entry_sources(q, modules, entries, docs),
{
    let ok = ckan_positions(entries, docs, entries.len() as int, true);
    let src = choose|src: Seq<ParsedModule>|
        {
            &&& src.len() == ok.len()
            &&& forall|k: int|
                0 <= k < src.len() ==> module_of_json(
                    #[trigger] src[k],
                    entries[ok[k]].path@,
                    docs[ok[k]]->Ok_0,
                )
            &&& #[trigger] stably_sorted(src, modules)
        };
    let p = choose|p: Seq<int>| sorted_arrangement(p, src, modules);
    lemma_ckan_positions_range(entries, docs, entries.len() as int, true);
    lemma_ckan_positions_increasing(entries, docs, entries.len() as int, true);
    let q = Seq::new(modules.len(), |i: int| ok[p[i]]);
    assert forall|i: int| 0 <= i < q.len() implies 0 <= #[trigger] q[i] < entries.len() && module_of_json(
        modules[i],
        entries[q[i]].path@,
        docs[q[i]]->Ok_0,
    ) by {
        assert(0 <= p[i] < src.len());
        assert(modules[i] == src[p[i]]);
    }
    assert forall|i: int, j: int| 0 <= i < q.len() && 0 <= j < q.len() && i != j implies #[trigger] q[i]
        != #[trigger] q[j] by {
        let (k, l) = if i < j {
            (i, j)
        } else {
            (j, i)
        };
        assert(ranked_lt(p[k], src[p[k]], p[l], src[p[l]]));
        lemma_module_key_facts(src[p[k]], src[p[l]], src[p[l]]);
        assert(p[k] != p[l]);
        if p[k] < p[l] {
            assert(ok[p[k]] < ok[p[l]]);
        } else {
            assert(ok[p[l]] < ok[p[k]]);
        }
    }
    assert(entry_sources(q, modules, entries, docs));
}

/// `errors` are the errors of the `.ckan` entries that do not parse, in order.
pub open spec fn errors_from_entries(
    errors: Seq<ParseError>,
    entries: Seq<TextEntry>,
    docs: Seq<Result<JsonValue, String>>,
) -> bool {
    let bad = ckan_positions(entries, docs, entries.len() as int, false);
    &&& errors.len() == bad.len()
    &&& forall|k: int| 0 <= k < errors.len() ==> error_of_entry(#[trigger] errors[k], entries, docs, bad[k])
}

/// `report` describes the parse of `modules` from a loaded archive. The
/// timings are the clock's and are not stated.
pub open spec fn report_of(
    report: ParseReport,
    source: Seq<char>,
    source_kind: Seq<char>,
    loaded: ArchiveLoad,
    docs: Seq<Result<JsonValue, String>>,
    modules: Seq<ParsedModule>,
) -> bool {
    let entries = loaded.entries@;
    let special = special_counts_spec(entries, docs, entries.len() as int);
    &&& report.archive@ == source
    &&& report.archive_kind@ == source_kind
    &&& report.archive_entries == loaded.archive_entries
    &&& report.relevant_entries == entries.len()
    &&& report.ckan_entries == ckan_count(entries, entries.len() as int)
    &&& report.parsed_modules == modules.len()
    &&& report.named_modules == count_where(modules, module_flag_pred(0))
    &&& report.versioned_modules == count_where(modules, module_flag_pred(1))
    &&& report.spec_versioned_modules == count_where(modules, module_flag_pred(2))
    &&& report.unique_identifiers == module_identifier_list(modules).to_set().len()
    &&& report.missing_identifier == count_where(modules, module_flag_pred(3))
    &&& report.dependency_edges == saturated(sum_of(modules, module_edges(0)))
    &&& report.recommendation_edges == saturated(sum_of(modules, module_edges(1)))
    &&& report.suggestion_edges == saturated(sum_of(modules, module_edges(2)))
    &&& report.conflict_edges == saturated(sum_of(modules, module_edges(3)))
    &&& report.provided_identifiers == saturated(sum_of(modules, module_edges(4)))
    &&& report.modules_with_abstract == count_where(modules, module_flag_pred(4))
    &&& report.modules_with_author == count_where(modules, module_flag_pred(5))
    &&& report.modules_with_license == count_where(modules, module_flag_pred(6))
    &&& report.modules_with_install == count_where(modules, module_flag_pred(7))
    &&& report.modules_with_resources == count_where(modules, module_flag_pred(8))
    &&& report.modules_with_download == count_where(modules, module_flag_pred(9))
    &&& report.modules_with_ksp_version == count_where(modules, module_flag_pred(10))
    &&& report.modules_with_ksp_version_min == count_where(modules, module_flag_pred(11))
    &&& report.modules_with_ksp_version_max == count_where(modules, module_flag_pred(12))
    &&& report.parse_errors == report.errors.len()
    &&& errors_from_entries(report.errors@, entries, docs)
    &&& report.download_counts == special.0
    &&& report.builds == special.1
    &&& report.repositories == special.2
    &&& report.bytes_read == loaded.bytes_read
    &&& exists|counts: Seq<(usize, Seq<char>)>|
        {
            &&& identifier_counts_spec(counts, modules)
            &&& report.duplicate_identifiers == count_where(counts, duplicated_pred())
            &&& report.top_identifiers.len() == if counts.len() < 10 {
                counts.len() as int
            } else {
                10
            }
            &&& forall|k: int|
                0 <= k < report.top_identifiers.len() ==> (#[trigger] report.top_identifiers@[k])@
                    == counts[counts.len() - 1 - k]
        }
}

/// Parses the entries of a loaded archive, given the JSON parse of each
/// entry (`docs[i]` for `entries[i]`): the `.ckan` entries become modules
/// or parse errors, the special files give their sizes and the download
/// counts, and the report counts what was found.
pub fn parse_loaded_documents(
    source: String,
    source_kind: &str,
    loaded: ArchiveLoad,
    docs: &Vec<Result<JsonValue, String>>,
    started: &Instant,
) -> (r: ArchiveParse)
    requires
        docs.len() == loaded.entries.len(),
    ensures
        modules_from_entries(r.modules@, loaded.entries@, docs@),
        report_of(r.report, source@, source_kind@, loaded, docs@, r.modules@),
        download_counts_wf(r.download_counts),
        forall|id: Seq<char>|
            download_count_of(r.download_counts, id) == archive_download_count(loaded.entries@, docs@, id),
{
    let parse_started = now();
    let (ranked, errors, ckan_entries) = parse_ckan_entries(&loaded.entries, docs);
    let ghost src = Seq::new(ranked.len() as nat, |k: int| ranked@[k].module);
    proof {
        assert(views(ranked@) =~= ranked_views(src));
    }
    let modules = sort_modules(ranked, Ghost(src));
    let special = parse_special_entries(&loaded.entries, docs);
    let download_counts = download_counts_of_documents(&loaded.entries, docs);
    let counts = identifier_counts(&modules);
    let (duplicates, top_identifiers) = duplicates_and_top(&counts);
    let (flags, sums) = tally_modules(&modules);
    let identifiers = collect_module_identifiers(&modules);
    let unique = distinct_texts(&identifiers);
    let read_ms = millis(&loaded.elapsed);
    let parse_ms = millis(&elapsed_since(&parse_started));
    let elapsed_ms = millis(&elapsed_since(started));
    let parse_errors = errors.len();
    let report = ParseReport {
        archive: source,
        archive_kind: text_copy(source_kind),
        archive_entries: loaded.archive_entries,
        relevant_entries: loaded.entries.len(),
        ckan_entries,
        parsed_modules: modules.len(),
        named_modules: flags[0],
        versioned_modules: flags[1],
        spec_versioned_modules: flags[2],
        unique_identifiers: unique.len(),
        duplicate_identifiers: duplicates,
        missing_identifier: flags[3],
        dependency_edges: sums[0],
        recommendation_edges: sums[1],
        suggestion_edges: sums[2],
        conflict_edges: sums[3],
        provided_identifiers: sums[4],
        modules_with_abstract: flags[4],
        modules_with_author: flags[5],
        modules_with_license: flags[6],
        modules_with_install: flags[7],
        modules_with_resources: flags[8],
        modules_with_download: flags[9],
        modules_with_ksp_version: flags[10],
        modules_with_ksp_version_min: flags[11],
        modules_with_ksp_version_max: flags[12],
        parse_errors,
        download_counts: special.download_counts,
        builds: special.builds,
        repositories: special.repositories,
        bytes_read: loaded.bytes_read,
        read_ms,
        parse_ms,
        elapsed_ms,
        top_identifiers,
        errors,
    };
    proof {
        assert(modules_from_entries(modules@, loaded.entries@, docs@));
        assert(identifier_counts_spec(views(counts@), modules@));
        assert(report_of(report, source@, source_kind@, loaded, docs@, modules@));
    }
    ArchiveParse { report, modules, download_counts }
}

// ---------------------------------------------------------------------------
// Parsing the same input twice
// ---------------------------------------------------------------------------

/// Two modules that agree on every field, texts compared by their views.
pub open spec fn same_views(a: ParsedModule, b: ParsedModule) -> bool {
    &&& a.path@ == b.path@
    &&& opt_view(a.identifier) == opt_view(b.identifier)
    &&& opt_view(a.name) == opt_view(b.name)
    &&& opt_view(a.version) == opt_view(b.version)
    &&& opt_view(a.spec_version) == opt_view(b.spec_version)
    &&& opt_view(a.abstract_text) == opt_view(b.abstract_text)
    &&& opt_view(a.description) == opt_view(b.description)
    &&& views(a.authors@) == views(b.authors@)
    &&& views(a.licenses@) == views(b.licenses@)
    &&& opt_view(a.kind) == opt_view(b.kind)
    &&& a.release_status@ == b.release_status@
    &&& opt_view(a.release_date) == opt_view(b.release_date)
    &&& a.download_size == b.download_size
    &&& a.author_count == b.author_count
    &&& a.license_count == b.license_count
    &&& a.resource_count == b.resource_count
    &&& a.install_steps == b.install_steps
    &&& a.has_download == b.has_download
    &&& opt_view(a.ksp_version) == opt_view(b.ksp_version)
    &&& opt_view(a.ksp_version_min) == opt_view(b.ksp_version_min)
    &&& opt_view(a.ksp_version_max) == opt_view(b.ksp_version_max)
    &&& a.dependency_edges == b.dependency_edges
    &&& a.recommendation_edges == b.recommendation_edges
    &&& a.suggestion_edges == b.suggestion_edges
    &&& a.conflict_edges == b.conflict_edges
    &&& a.provided_identifiers == b.provided_identifiers
    &&& views(a.dependency_names@) == views(b.dependency_names@)
    &&& views(a.recommendation_names@) == views(b.recommendation_names@)
    &&& views(a.suggestion_names@) == views(b.suggestion_names@)
    &&& views(a.conflict_names@) == views(b.conflict_names@)
    &&& views(a.provided_names@) == views(b.provided_names@)
}

proof fn lemma_json_same_views(a: ParsedModule, b: ParsedModule, path: Seq<char>, value: JsonValue)
    requires
        module_of_json(a, path, value),
        module_of_json(b, path, value),
    ensures
        same_views(a, b),
{
    assert(views(a.dependency_names@).len() == a.dependency_names@.len());
    assert(views(b.dependency_names@).len() == b.dependency_names@.len());
    assert(views(a.recommendation_names@).len() == a.recommendation_names@.len());
    assert(views(b.recommendation_names@).len() == b.recommendation_names@.len());
    assert(views(a.suggestion_names@).len() == a.suggestion_names@.len());
    assert(views(b.suggestion_names@).len() == b.suggestion_names@.len());
    assert(views(a.conflict_names@).len() == a.conflict_names@.len());
    assert(views(b.conflict_names@).len() == b.conflict_names@.len());
    assert(views(a.provided_names@).len() == a.provided_names@.len());
    assert(views(b.provided_names@).len() == b.provided_names@.len());
}

/// A sorted arrangement places every module: each position occurs in it.
proof fn lemma_arrangement_onto(p: Seq<int>, src: Seq<ParsedModule>, dst: Seq<ParsedModule>, i: int)
    requires
        sorted_arrangement(p, src, dst),
        0 <= i < src.len(),
    ensures
        exists|k: int| 0 <= k < p.len() && p[k] == i,
{
    assert(p.no_duplicates()) by {
        assert forall|k: int, l: int| 0 <= k < p.len() && 0 <= l < p.len() && k != l implies p[k] != p[l] by {
            let (x, y) = if k < l {
                (k, l)
            } else {
                (l, k)
            };
            assert(ranked_lt(p[x], src[p[x]], p[y], src[p[y]]));
            lemma_module_key_facts(src[p[x]], src[p[y]], src[p[y]]);
        }
    }
    p.unique_seq_to_set();
    vstd::set_lib::lemma_int_range(0, src.len() as int);
    let range = vstd::set_lib::set_int_range(0, src.len() as int);
    assert(p.to_set().subset_of(range)) by {
        assert forall|x: int| p.to_set().contains(x) implies range.contains(x) by {
            let k = choose|k: int| 0 <= k < p.len() && p[k] == x;
        }
    }
    vstd::set_lib::lemma_subset_equality(p.to_set(), range);
    assert(range.contains(i));
    assert(p.to_set().contains(i));
}

/// Two sorted arrangements of modules that agree by view are the same.
proof fn lemma_arrangements_agree(
    p1: Seq<int>,
    s1: Seq<ParsedModule>,
    d1: Seq<ParsedModule>,
    p2: Seq<int>,
    s2: Seq<ParsedModule>,
    d2: Seq<ParsedModule>,
    n: int,
)
    requires
        sorted_arrangement(p1, s1, d1),
        sorted_arrangement(p2, s2, d2),
        s1.len() == s2.len(),
        forall|i: int| 0 <= i < s1.len() ==> same_views(#[trigger] s1[i], s2[i]),
        0 <= n <= p1.len(),
    ensures
        forall|k: int| 0 <= k < n ==> p1[k] == p2[k],
    decreases n,
{
    if n > 0 {
        lemma_arrangements_agree(p1, s1, d1, p2, s2, d2, n - 1);
        let k = n - 1;
        let a = p1[k];
        let b = p2[k];
        if a != b {
            lemma_arrangement_onto(p2, s2, d2, a);
            lemma_arrangement_onto(p1, s1, d1, b);
            let ka = choose|j: int| 0 <= j < p2.len() && p2[j] == a;
            let kb = choose|j: int| 0 <= j < p1.len() && p1[j] == b;
            if ka < k {
                assert(p1[ka] == a);
                assert(ranked_lt(p1[ka], s1[p1[ka]], p1[k], s1[p1[k]]));
                lemma_module_key_facts(s1[a], s1[a], s1[a]);
            }
            if kb < k {
                assert(p2[kb] == b);
                assert(ranked_lt(p2[kb], s2[p2[kb]], p2[k], s2[p2[k]]));
                lemma_module_key_facts(s2[b], s2[b], s2[b]);
            }
            assert(ka > k && kb > k);
            assert(ranked_lt(p2[k], s2[p2[k]], p2[ka], s2[p2[ka]]));
            assert(ranked_lt(p1[k], s1[p1[k]], p1[kb], s1[p1[kb]]));
            assert(same_views(s1[a], s2[a]));
            assert(same_views(s1[b], s2[b]));
            lemma_module_key_facts(s2[a], s2[b], s2[b]);
        }
    }
}

/// Parsing the same entries and documents twice gives modules that agree
/// by view, position by position.
pub proof fn lemma_parse_modules_agree(
    m1: Seq<ParsedModule>,
    m2: Seq<ParsedModule>,
    entries: Seq<TextEntry>,
    docs: Seq<Result<JsonValue, String>>,
)
    requires
        modules_from_entries(m1, entries, docs),
        modules_from_entries(m2, entries, docs),
    ensures
        m1.len() == m2.len(),
        forall|k: int| 0 <= k < m1.len() ==> same_views(#[trigger] m1[k], m2[k]),
{
    let ok = ckan_positions(entries, docs, entries.len() as int, true);
    let s1 = choose|src: Seq<ParsedModule>|
        {
            &&& src.len() == ok.len()
            &&& forall|k: int|
                0 <= k < src.len() ==> module_of_json(
                    #[trigger] src[k],
                    entries[ok[k]].path@,
                    docs[ok[k]]->Ok_0,
                )
            &&& #[trigger] stably_sorted(src, m1)
        };
    let s2 = choose|src: Seq<ParsedModule>|
        {
            &&& src.len() == ok.len()
            &&& forall|k: int|
                0 <= k < src.len() ==> module_of_json(
                    #[trigger] src[k],
                    entries[ok[k]].path@,
                    docs[ok[k]]->Ok_0,
                )
            &&& #[trigger] stably_sorted(src, m2)
        };
    assert forall|i: int| 0 <= i < s1.len() implies same_views(#[trigger] s1[i], s2[i]) by {
        lemma_json_same_views(s1[i], s2[i], entries[ok[i]].path@, docs[ok[i]]->Ok_0);
    }
    let p1 = choose|p: Seq<int>| sorted_arrangement(p, s1, m1);
    let p2 = choose|p: Seq<int>| sorted_arrangement(p, s2, m2);
    lemma_arrangements_agree(p1, s1, m1, p2, s2, m2, p1.len() as int);
    assert forall|k: int| 0 <= k < m1.len() implies same_views(#[trigger] m1[k], m2[k]) by {
        assert(p1[k] == p2[k]);
        assert(same_views(s1[p1[k]], s2[p1[k]]));
    }
}

/// Parses the entries of a loaded archive: each entry's text as a JSON
/// document, then its `.ckan` entries into modules or parse errors, its
/// special files into their sizes and the download counts, and the report
/// that counts what was found.
pub fn parse_loaded_details(source: String, source_kind: &str, loaded: ArchiveLoad, started: &Instant) -> (r:
    ArchiveParse)
    ensures
        modules_from_entries(r.modules@, loaded.entries@, documents_of(loaded.entries@)),
        report_of(r.report, source@, source_kind@, loaded, documents_of(loaded.entries@), r.modules@),
        download_counts_wf(r.download_counts),
        forall|id: Seq<char>|
            download_count_of(r.download_counts, id) == archive_download_count(
                loaded.entries@,
                documents_of(loaded.entries@),
                id,
            ),
{
    let docs = parse_documents(&loaded.entries);
    parse_loaded_documents(source, source_kind, loaded, &docs, started)
}

/// What each count of a parse report counts: the modules with a non-empty
/// name, version, spec version, abstract, KSP version, minimum or maximum
/// KSP version; without a non-empty identifier; with an author, a license,
/// an install step, a resource or a download; and the totals of each
/// relationship's edges.
pub proof fn lemma_report_counts_mean(
    report: ParseReport,
    source: Seq<char>,
    source_kind: Seq<char>,
    loaded: ArchiveLoad,
    docs: Seq<Result<JsonValue, String>>,
    modules: Seq<ParsedModule>,
)
    requires
        report_of(report, source, source_kind, loaded, docs, modules),
    ensures
        report.named_modules == count_where(modules, |m: ParsedModule| m.name matches Some(t) && t@.len() > 0),
        report.versioned_modules == count_where(modules, |m: ParsedModule| m.version matches Some(t) && t@.len() > 0),
        report.spec_versioned_modules == count_where(modules, |m: ParsedModule| m.spec_version matches Some(t) && t@.len() > 0),
        report.missing_identifier == count_where(modules, |m: ParsedModule| !(m.identifier matches Some(t) && t@.len() > 0)),
        report.modules_with_abstract == count_where(modules, |m: ParsedModule| m.abstract_text matches Some(t) && t@.len() > 0),
        report.modules_with_author == count_where(modules, |m: ParsedModule| m.author_count > 0),
        report.modules_with_license == count_where(modules, |m: ParsedModule| m.license_count > 0),
        report.modules_with_install == count_where(modules, |m: ParsedModule| m.install_steps > 0),
        report.modules_with_resources == count_where(modules, |m: ParsedModule| m.resource_count > 0),
        report.modules_with_download == count_where(modules, |m: ParsedModule| m.has_download),
        report.modules_with_ksp_version == count_where(modules, |m: ParsedModule| m.ksp_version matches Some(t) && t@.len() > 0),
        report.modules_with_ksp_version_min == count_where(modules, |m: ParsedModule| m.ksp_version_min matches Some(t) && t@.len() > 0),
        report.modules_with_ksp_version_max == count_where(modules, |m: ParsedModule| m.ksp_version_max matches Some(t) && t@.len() > 0),
        report.dependency_edges == saturated(sum_of(modules, |m: ParsedModule| m.dependency_edges as nat)),
        report.recommendation_edges == saturated(sum_of(modules, |m: ParsedModule| m.recommendation_edges as nat)),
        report.suggestion_edges == saturated(sum_of(modules, |m: ParsedModule| m.suggestion_edges as nat)),
        report.conflict_edges == saturated(sum_of(modules, |m: ParsedModule| m.conflict_edges as nat)),
        report.provided_identifiers == saturated(sum_of(modules, |m: ParsedModule| m.provided_identifiers as nat)),
{
    assert(module_flag_pred(0) =~= (|m: ParsedModule| m.name matches Some(t) && t@.len() > 0));
    assert(module_flag_pred(1) =~= (|m: ParsedModule| m.version matches Some(t) && t@.len() > 0));
    assert(module_flag_pred(2) =~= (|m: ParsedModule| m.spec_version matches Some(t) && t@.len() > 0));
    assert(module_flag_pred(3) =~= (|m: ParsedModule| !(m.identifier matches Some(t) && t@.len() > 0)));
    assert(module_flag_pred(4) =~= (|m: ParsedModule| m.abstract_text matches Some(t) && t@.len() > 0));
    assert(module_flag_pred(5) =~= (|m: ParsedModule| m.author_count > 0));
    assert(module_flag_pred(6) =~= (|m: ParsedModule| m.license_count > 0));
    assert(module_flag_pred(7) =~= (|m: ParsedModule| m.install_steps > 0));
    assert(module_flag_pred(8) =~= (|m: ParsedModule| m.resource_count > 0));
    assert(module_flag_pred(9) =~= (|m: ParsedModule| m.has_download));
    assert(module_flag_pred(10) =~= (|m: ParsedModule| m.ksp_version matches Some(t) && t@.len() > 0));
    assert(module_flag_pred(11) =~= (|m: ParsedModule| m.ksp_version_min matches Some(t) && t@.len() > 0));
    assert(module_flag_pred(12) =~= (|m: ParsedModule| m.ksp_version_max matches Some(t) && t@.len() > 0));
    assert(module_edges(0) =~= (|m: ParsedModule| m.dependency_edges as nat));
    assert(module_edges(1) =~= (|m: ParsedModule| m.recommendation_edges as nat));
    assert(module_edges(2) =~= (|m: ParsedModule| m.suggestion_edges as nat));
    assert(module_edges(3) =~= (|m: ParsedModule| m.conflict_edges as nat));
    assert(module_edges(4) =~= (|m: ParsedModule| m.provided_identifiers as nat));
}

} // verus!
