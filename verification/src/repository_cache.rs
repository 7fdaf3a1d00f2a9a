//! Merging the parsed repository caches that CKAN writes into the entries
//! of one loaded archive.

use vstd::prelude::*;
use std::time::Duration;

use crate::archive::{ArchiveLoad, TextEntry};
use crate::clock::{elapsed_since, now};
use crate::json::{as_str, as_str_spec, get, get_spec, value_text_spec, value_to_text, JsonValue};
use crate::keymap::{key_lt, lemma_insert_ordered, search_key, strictly_ordered, TextPair};
use crate::order::{opt_view, views};
use crate::text::{
    char_is_ascii_alphanumeric, chars_of, is_ascii_alphanumeric, is_ascii_digit,
    lemma_zero_padded_value, push_text, text_copy, zero_padded_spec, zero_padded_text,
};

verus! {

/// One module version of a repository cache: the identifier and version it
/// is filed under, and its metadata.
pub struct CachedModule {
    pub identifier: String,
    pub version: String,
    pub module: JsonValue,
}

/// One download count of a repository cache.
pub struct CachedCount {
    pub identifier: String,
    pub count: u64,
}

/// A parsed repository cache: its module versions in file order (by
/// identifier, then version) and its download counts.
pub struct RepositoryCache {
    pub modules: Vec<CachedModule>,
    pub download_counts: Vec<CachedCount>,
}

/// Why repository caches could not be merged.
pub enum RepositoryCacheError {
    /// No cache was given.
    NoCaches,
}

// ---------------------------------------------------------------------------
// Keys and labels
// ---------------------------------------------------------------------------

/// The identifier a cached module is merged under: its own non-empty
/// `identifier`, else the one it is filed under.
pub open spec fn cached_identifier(m: CachedModule) -> Seq<char> {
    match get_spec(m.module, "identifier"@) {
        Some(v) => match as_str_spec(v) {
            Some(s) => if s.len() > 0 {
                s
            } else {
                m.identifier@
            },
            None => m.identifier@,
        },
        None => m.identifier@,
    }
}

/// The version a cached module is merged under: the text of its own
/// `version` when not empty, else the one it is filed under.
pub open spec fn cached_version(m: CachedModule) -> Seq<char> {
    match get_spec(m.module, "version"@) {
        Some(v) => if value_text_spec(v).len() > 0 {
            value_text_spec(v)
        } else {
            m.version@
        },
        None => m.version@,
    }
}

pub open spec fn cached_key(m: CachedModule) -> (Seq<char>, Seq<char>) {
    (cached_identifier(m), cached_version(m))
}

fn merge_key(m: &CachedModule) -> (r: TextPair)
    ensures
        r@ == cached_key(*m),
{
    let identifier = match get(&m.module, "identifier") {
        Some(v) => match as_str(v) {
            Some(s) => if s.as_str().is_empty() {
                m.identifier.clone()
            } else {
                s.clone()
            },
            None => m.identifier.clone(),
        },
        None => m.identifier.clone(),
    };
    let version = match get(&m.module, "version") {
        Some(v) => {
            let t = value_to_text(v);
            if t.as_str().is_empty() {
                m.version.clone()
            } else {
                t
            }
        },
        None => m.version.clone(),
    };
    TextPair { first: identifier, second: version }
}

/// A character kept in a file label: ASCII letters and digits, `-`, `_` and
/// `.` stay, anything else becomes `_`.
pub open spec fn safe_char(c: char) -> char {
    if is_ascii_alphanumeric(c) || c == '-' || c == '_' || c == '.' {
        c
    } else {
        '_'
    }
}

/// A text made safe for a file name, at most 80 characters long.
pub open spec fn safe_label_spec(s: Seq<char>) -> Seq<char> {
    let n = if s.len() < 80 {
        s.len()
    } else {
        80
    };
    Seq::new(n, |i: int| safe_char(s[i]))
}

/// A text made safe for a file name, at most 80 characters long.
pub fn safe_label(value: &str) -> (r: String)
    ensures
        r@ == safe_label_spec(value@),
{
    let chars = chars_of(value);
    let n = if chars.len() < 80 {
        chars.len()
    } else {
        80
    };
    let mut out = String::new();
    let mut i: usize = 0;
    while i < n
        invariant
            i <= n,
            chars@ == value@,
            n <= chars.len(),
            out@ == Seq::new(i as nat, |k: int| safe_char(value@[k])),
        decreases n - i,
    {
        let c = chars[i];
        let keep = char_is_ascii_alphanumeric(c) || c == '-' || c == '_' || c == '.';
        let d = if keep {
            c
        } else {
            '_'
        };
        out.push(d);
        proof {
            assert(out@ =~= Seq::new((i + 1) as nat, |k: int| safe_char(value@[k])));
        }
        i = i + 1;
    }
    proof {
        assert(out@ =~= safe_label_spec(value@));
    }
    out
}

/// The path of the `index`-th merged module.
pub open spec fn cache_entry_path(index: nat, key: (Seq<char>, Seq<char>)) -> Seq<char> {
    "repository-cache/"@ + zero_padded_spec(index, 8) + "-"@ + safe_label_spec(key.0) + "-"@
        + safe_label_spec(key.1) + ".ckan"@
}

fn entry_path(index: usize, key: &TextPair) -> (r: String)
    ensures
        r@ == cache_entry_path(index as nat, key@),
{
    let mut s = text_copy("repository-cache/");
    push_text(&mut s, zero_padded_text(index as u64, 8).as_str());
    push_text(&mut s, "-");
    push_text(&mut s, safe_label(key.first.as_str()).as_str());
    push_text(&mut s, "-");
    push_text(&mut s, safe_label(key.second.as_str()).as_str());
    push_text(&mut s, ".ckan");
    s
}

/// The compact JSON text of a value.
pub open spec fn json_text_spec(v: JsonValue) -> Seq<char> {
    match v {
        JsonValue::Null => "null"@,
        JsonValue::Bool(b) => if b {
            "true"@
        } else {
            "false"@
        },
        JsonValue::Number { text, .. } => text@,
        JsonValue::Text { text, .. } => text@,
        JsonValue::Array { text, .. } => text@,
        JsonValue::Object { text, .. } => text@,
    }
}

fn json_text(v: &JsonValue) -> (r: String)
    ensures
        r@ == json_text_spec(*v),
{
    match v {
        JsonValue::Null => text_copy("null"),
        JsonValue::Bool(b) => if *b {
            text_copy("true")
        } else {
            text_copy("false")
        },
        JsonValue::Number { text, .. } => text.clone(),
        JsonValue::Text { text, .. } => text.clone(),
        JsonValue::Array { text, .. } => text.clone(),
        JsonValue::Object { text, .. } => text.clone(),
    }
}

// ---------------------------------------------------------------------------
// Merging
// ---------------------------------------------------------------------------

/// All cached modules, cache by cache, in order.
pub open spec fn all_cached(caches: Seq<RepositoryCache>) -> Seq<CachedModule>
    decreases caches.len(),
{
    if caches.len() == 0 {
        Seq::empty()
    } else {
        all_cached(caches.drop_last()) + caches.last().modules@
    }
}

/// All download counts, cache by cache, in order.
pub open spec fn all_counts(caches: Seq<RepositoryCache>) -> Seq<CachedCount>
    decreases caches.len(),
{
    if caches.len() == 0 {
        Seq::empty()
    } else {
        all_counts(caches.drop_last()) + caches.last().download_counts@
    }
}

/// The first module merged under a key.
pub open spec fn first_with_key(ms: Seq<CachedModule>, key: (Seq<char>, Seq<char>)) -> Option<JsonValue>
    decreases ms.len(),
{
    if ms.len() == 0 {
        None
    } else {
        match first_with_key(ms.drop_last(), key) {
            Some(v) => Some(v),
            None => if cached_key(ms.last()) == key {
                Some(ms.last().module)
            } else {
                None
            },
        }
    }
}

/// The first count given for an identifier.
pub open spec fn first_count(cs: Seq<CachedCount>, id: Seq<char>) -> Option<u64>
    decreases cs.len(),
{
    if cs.len() == 0 {
        None
    } else {
        match first_count(cs.drop_last(), id) {
            Some(n) => Some(n),
            None => if cs.last().identifier@ == id {
                Some(cs.last().count)
            } else {
                None
            },
        }
    }
}

/// Names what `serde_json::to_string` writes for a `BTreeMap<String, u64>`
/// that holds the pairs: a function of the pairs alone.
pub uninterp spec fn counts_json(pairs: Seq<(Seq<char>, u64)>) -> Option<Seq<char>>;

pub open spec fn pair_views(pairs: Seq<(String, u64)>) -> Seq<(Seq<char>, u64)> {
    pairs.map_values(|p: (String, u64)| (p.0@, p.1))
}

/// `serde_json::to_string` on a `BTreeMap<&str, u64>` built from the pairs.
/// With string keys and `u64` values it cannot fail; the text is named.
#[verifier::external_body]
fn download_counts_json(pairs: &Vec<(String, u64)>) -> (r: Option<String>)
    ensures
        r is Some,
        opt_view(r) == counts_json(pair_views(pairs@)),
{
    let map: std::collections::BTreeMap<&str, u64> = pairs.iter().map(|(k, v)| (k.as_str(), *v)).collect();
    serde_json::to_string(&map).ok()
}

proof fn lemma_first_with_key_push(ms: Seq<CachedModule>, m: CachedModule, key: (Seq<char>, Seq<char>))
    ensures
        first_with_key(ms.push(m), key) == match first_with_key(ms, key) {
            Some(v) => Some(v),
            None => if cached_key(m) == key {
                Some(m.module)
            } else {
                None
            },
        },
{
    assert(ms.push(m).drop_last() =~= ms);
}

proof fn lemma_first_count_push(cs: Seq<CachedCount>, c: CachedCount, id: Seq<char>)
    ensures
        first_count(cs.push(c), id) == match first_count(cs, id) {
            Some(n) => Some(n),
            None => if c.identifier@ == id {
                Some(c.count)
            } else {
                None
            },
        },
{
    assert(cs.push(c).drop_last() =~= cs);
}

/// The state of the module merge: strictly ordered keys, each with the
/// first module merged under it.
pub open spec fn merged_modules(keys: Seq<TextPair>, vals: Seq<&JsonValue>, seen: Seq<CachedModule>) -> bool {
    &&& keys.len() == vals.len()
    &&& strictly_ordered::<TextPair>(views(keys))
    &&& forall|k: int| 0 <= k < keys.len() ==> first_with_key(seen, (#[trigger] keys[k])@) == Some(*vals[k])
    &&& forall|key: (Seq<char>, Seq<char>)| first_with_key(seen, key) is Some ==> views(keys).contains(key)
}

/// Adds one module to the merge unless its key is already taken.
fn merge_module<'a>(
    keys: &mut Vec<TextPair>,
    vals: &mut Vec<&'a JsonValue>,
    m: &'a CachedModule,
    Ghost(seen): Ghost<Seq<CachedModule>>,
)
    requires
        merged_modules(old(keys)@, old(vals)@, seen),
    ensures
        merged_modules(final(keys)@, final(vals)@, seen.push(*m)),
{
    let key = merge_key(m);
    proof {
        assert forall|x: (Seq<char>, Seq<char>)| #[trigger] first_with_key(seen.push(*m), x) == match first_with_key(seen, x) {
            Some(v) => Some(v),
            None => if cached_key(*m) == x {
                Some(m.module)
            } else {
                None
            },
        } by {
            lemma_first_with_key_push(seen, *m, x);
        }
    }
    match search_key(keys, &key) {
        Ok(k) => {
            proof {
                assert(views(keys@)[k as int] == keys@[k as int]@);
                assert(views(keys@).contains(key@));
            }
        },
        Err(p) => {
            proof {
                assert(!views(keys@).contains(key@)) by {
                    if views(keys@).contains(key@) {
                        let q = choose|q: int| 0 <= q < views(keys@).len() && views(keys@)[q] == key@;
                        if q < p {
                            assert(key_lt::<TextPair>(views(keys@)[q], key@));
                        } else {
                            assert(key_lt::<TextPair>(key@, views(keys@)[q]));
                        }
                    }
                }
                assert(first_with_key(seen, key@) is None);
                lemma_insert_ordered::<TextPair>(keys@, p as int, key);
            }
            let ghost old_keys = keys@;
            let ghost old_vals = vals@;
            keys.insert(p, key);
            vals.insert(p, &m.module);
            proof {
                assert(views(keys@) =~= views(old_keys).insert(p as int, key@));
                assert forall|k: int| 0 <= k < keys.len() implies first_with_key(seen.push(*m), (#[trigger] keys@[k])@) == Some(*vals@[k]) by {
                    if k < p {
                        assert(keys@[k] == old_keys[k]);
                        assert(vals@[k] == old_vals[k]);
                    } else if k > p {
                        assert(keys@[k] == old_keys[k - 1]);
                        assert(vals@[k] == old_vals[k - 1]);
                    }
                }
                assert forall|x: (Seq<char>, Seq<char>)| first_with_key(seen.push(*m), x) is Some implies views(keys@).contains(x) by {
                    if first_with_key(seen, x) is Some {
                        assert(views(old_keys).contains(x));
                        let q = choose|q: int| 0 <= q < views(old_keys).len() && views(old_keys)[q] == x;
                        if q < p {
                            assert(views(keys@)[q] == x);
                        } else {
                            assert(views(keys@)[q + 1] == x);
                        }
                    } else {
                        assert(views(keys@)[p as int] == x);
                    }
                }
            }
        },
    }
}

/// The state of the count merge: strictly ordered identifiers, each with
/// the first count given for it.
pub open spec fn merged_counts(ids: Seq<String>, counts: Seq<u64>, seen: Seq<CachedCount>) -> bool {
    &&& ids.len() == counts.len()
    &&& strictly_ordered::<String>(views(ids))
    &&& forall|k: int| 0 <= k < ids.len() ==> first_count(seen, (#[trigger] ids[k])@) == Some(counts[k])
    &&& forall|id: Seq<char>| first_count(seen, id) is Some ==> views(ids).contains(id)
}

/// Adds one count to the merge unless its identifier is already counted.
fn merge_count(ids: &mut Vec<String>, counts: &mut Vec<u64>, c: &CachedCount, Ghost(seen): Ghost<Seq<CachedCount>>)
    requires
        merged_counts(old(ids)@, old(counts)@, seen),
    ensures
        merged_counts(final(ids)@, final(counts)@, seen.push(*c)),
{
    proof {
        assert forall|x: Seq<char>| #[trigger] first_count(seen.push(*c), x) == match first_count(seen, x) {
            Some(n) => Some(n),
            None => if c.identifier@ == x {
                Some(c.count)
            } else {
                None
            },
        } by {
            lemma_first_count_push(seen, *c, x);
        }
    }
    match search_key(ids, &c.identifier) {
        Ok(k) => {
            proof {
                assert(views(ids@)[k as int] == ids@[k as int]@);
                assert(views(ids@).contains(c.identifier@));
            }
        },
        Err(p) => {
            proof {
                assert(!views(ids@).contains(c.identifier@)) by {
                    if views(ids@).contains(c.identifier@) {
                        let q = choose|q: int| 0 <= q < views(ids@).len() && views(ids@)[q] == c.identifier@;
                        if q < p {
                            assert(key_lt::<String>(views(ids@)[q], c.identifier@));
                        } else {
                            assert(key_lt::<String>(c.identifier@, views(ids@)[q]));
                        }
                        crate::order::lemma_lex_irreflexive(c.identifier@);
                    }
                }
                assert(first_count(seen, c.identifier@) is None);
                lemma_insert_ordered::<String>(ids@, p as int, c.identifier);
            }
            let ghost old_ids = ids@;
            let ghost old_counts = counts@;
            ids.insert(p, c.identifier.clone());
            counts.insert(p, c.count);
            proof {
                assert(views(ids@) =~= views(old_ids).insert(p as int, c.identifier@));
                assert forall|k: int| 0 <= k < ids.len() implies first_count(seen.push(*c), (#[trigger] ids@[k])@) == Some(counts@[k]) by {
                    if k < p {
                        assert(ids@[k] == old_ids[k]);
                        assert(counts@[k] == old_counts[k]);
                    } else if k > p {
                        assert(ids@[k] == old_ids[k - 1]);
                        assert(counts@[k] == old_counts[k - 1]);
                    }
                }
                assert forall|x: Seq<char>| first_count(seen.push(*c), x) is Some implies views(ids@).contains(x) by {
                    if first_count(seen, x) is Some {
                        assert(views(old_ids).contains(x));
                        let q = choose|q: int| 0 <= q < views(old_ids).len() && views(old_ids)[q] == x;
                        if q < p {
                            assert(views(ids@)[q] == x);
                        } else {
                            assert(views(ids@)[q + 1] == x);
                        }
                    } else {
                        assert(views(ids@)[p as int] == x);
                    }
                }
            }
        },
    }
}

/// The merged download counts, in identifier order.
pub open spec fn merged_count_pairs(pairs: Seq<(Seq<char>, u64)>, caches: Seq<RepositoryCache>) -> bool {
    &&& strictly_ordered::<String>(pairs.map_values(|p: (Seq<char>, u64)| p.0))
    &&& forall|k: int| 0 <= k < pairs.len() ==> first_count(all_counts(caches), (#[trigger] pairs[k]).0) == Some(pairs[k].1)
    &&& forall|id: Seq<char>|
        first_count(all_counts(caches), id) is Some ==> exists|k: int| 0 <= k < pairs.len() && #[trigger] pairs[k].0 == id
}

/// What merging the caches gives: an entry per merged key in key order,
/// named by its position and key and holding the first module merged under
/// the key, then, when any cache has download counts, an entry with the
/// merged counts as JSON. Every cached module counts as an archive entry.
pub open spec fn repository_load_of(load: ArchiveLoad, caches: Seq<RepositoryCache>, bytes_read: u64) -> bool {
    let all = all_cached(caches);
    &&& load.archive_entries == if all.len() > usize::MAX {
        usize::MAX as int
    } else {
        all.len() as int
    }
    &&& load.bytes_read == bytes_read
    &&& exists|keys: Seq<(Seq<char>, Seq<char>)>, pairs: Seq<(Seq<char>, u64)>|
        {
            &&& #[trigger] strictly_ordered::<TextPair>(keys)
            &&& forall|key: (Seq<char>, Seq<char>)| #[trigger] first_with_key(all, key) is Some <==> keys.contains(key)
            &&& #[trigger] merged_count_pairs(pairs, caches)
            &&& load.entries.len() == keys.len() + if pairs.len() > 0 {
                1int
            } else {
                0
            }
            &&& forall|k: int|
                0 <= k < keys.len() ==> {
                    &&& (#[trigger] load.entries@[k]).path@ == cache_entry_path(k as nat, keys[k])
                    &&& load.entries@[k].contents@ == json_text_spec(first_with_key(all, keys[k])->0)
                }
            &&& pairs.len() > 0 ==> {
                &&& load.entries@[keys.len() as int].path@ == "repository-cache/download_counts.json"@
                &&& counts_json(pairs) == Some(load.entries@[keys.len() as int].contents@)
            }
        }
}

/// The merge fails only without caches.
pub open spec fn repository_error_of(e: RepositoryCacheError, caches: Seq<RepositoryCache>) -> bool {
    match e {
        RepositoryCacheError::NoCaches => caches.len() == 0,
    }
}

/// Merges CKAN's parsed repository caches, given in CKAN priority order:
/// for the same identifier and version the first cache wins, and so it does
/// for download counts. `bytes_read` is the size of the files read.
pub fn load_repository_caches(caches: &Vec<RepositoryCache>, bytes_read: u64) -> (r: Result<
    ArchiveLoad,
    RepositoryCacheError,
>)
    ensures
        r is Ok <==> caches.len() > 0,
        r matches Ok(load) ==> repository_load_of(load, caches@, bytes_read),
        r matches Err(e) ==> repository_error_of(e, caches@),
{
    if caches.len() == 0 {
        return Err(RepositoryCacheError::NoCaches);
    }
    let started = now();
    let mut archive_entries: usize = 0;
    let mut keys: Vec<TextPair> = Vec::new();
    let mut vals: Vec<&JsonValue> = Vec::new();
    let mut ids: Vec<String> = Vec::new();
    let mut counts: Vec<u64> = Vec::new();
    let mut c: usize = 0;
    while c < caches.len()
        invariant
            c <= caches.len(),
            merged_modules(keys@, vals@, all_cached(caches@.take(c as int))),
            merged_counts(ids@, counts@, all_counts(caches@.take(c as int))),
            archive_entries as int == if all_cached(caches@.take(c as int)).len() > usize::MAX {
                usize::MAX as int
            } else {
                all_cached(caches@.take(c as int)).len() as int
            },
        decreases caches.len() - c,
    {
        let cache = &caches[c];
        let ghost before = all_cached(caches@.take(c as int));
        let ghost before_counts = all_counts(caches@.take(c as int));
        proof {
            assert(caches@.take(c + 1).drop_last() =~= caches@.take(c as int));
            assert(caches@.take(c + 1).last() == *cache);
        }
        let mut m: usize = 0;
        while m < cache.modules.len()
            invariant
                m <= cache.modules.len(),
                merged_modules(keys@, vals@, before + cache.modules@.take(m as int)),
                archive_entries as int == if (before + cache.modules@.take(m as int)).len() > usize::MAX {
                    usize::MAX as int
                } else {
                    (before + cache.modules@.take(m as int)).len() as int
                },
            decreases cache.modules.len() - m,
        {
            proof {
                assert(before + cache.modules@.take(m + 1) =~= (before + cache.modules@.take(m as int)).push(
                    cache.modules@[m as int],
                ));
            }
            merge_module(&mut keys, &mut vals, &cache.modules[m], Ghost(before + cache.modules@.take(m as int)));
            archive_entries = archive_entries.saturating_add(1);
            m = m + 1;
        }
        proof {
            assert(cache.modules@.take(cache.modules.len() as int) =~= cache.modules@);
        }
        let mut k: usize = 0;
        while k < cache.download_counts.len()
            invariant
                k <= cache.download_counts.len(),
                merged_counts(ids@, counts@, before_counts + cache.download_counts@.take(k as int)),
            decreases cache.download_counts.len() - k,
        {
            proof {
                assert(before_counts + cache.download_counts@.take(k + 1) =~= (before_counts
                    + cache.download_counts@.take(k as int)).push(cache.download_counts@[k as int]));
            }
            merge_count(
                &mut ids,
                &mut counts,
                &cache.download_counts[k],
                Ghost(before_counts + cache.download_counts@.take(k as int)),
            );
            k = k + 1;
        }
        proof {
            assert(cache.download_counts@.take(cache.download_counts.len() as int) =~= cache.download_counts@);
        }
        c = c + 1;
    }
    proof {
        assert(caches@.take(caches.len() as int) =~= caches@);
    }
    let ghost all = all_cached(caches@);
    let mut entries: Vec<TextEntry> = Vec::new();
    let mut k: usize = 0;
    while k < keys.len()
        invariant
            k <= keys.len(),
            merged_modules(keys@, vals@, all),
            entries.len() == k,
            forall|j: int|
                0 <= j < k ==> {
                    &&& (#[trigger] entries@[j]).path@ == cache_entry_path(j as nat, keys@[j]@)
                    &&& entries@[j].contents@ == json_text_spec(first_with_key(all, keys@[j]@)->0)
                },
        decreases keys.len() - k,
    {
        let path = entry_path(k, &keys[k]);
        let contents = json_text(vals[k]);
        let ghost before = entries@;
        entries.push(TextEntry { path, contents });
        proof {
            assert forall|j: int| 0 <= j < k + 1 implies {
                &&& (#[trigger] entries@[j]).path@ == cache_entry_path(j as nat, keys@[j]@)
                &&& entries@[j].contents@ == json_text_spec(first_with_key(all, keys@[j]@)->0)
            } by {
                if j < k {
                    assert(entries@[j] == before[j]);
                }
            }
        }
        k = k + 1;
    }
    let mut pairs: Vec<(String, u64)> = Vec::new();
    let mut k: usize = 0;
    while k < ids.len()
        invariant
            k <= ids.len(),
            ids.len() == counts.len(),
            pairs.len() == k,
            forall|j: int| 0 <= j < k ==> #[trigger] pair_views(pairs@)[j] == (ids@[j]@, counts@[j]),
        decreases ids.len() - k,
    {
        let ghost before = pairs@;
        pairs.push((ids[k].clone(), counts[k]));
        proof {
            assert(pair_views(pairs@) =~= pair_views(before).push((ids@[k as int]@, counts@[k as int])));
            assert forall|j: int| 0 <= j < k + 1 implies #[trigger] pair_views(pairs@)[j] == (ids@[j]@, counts@[j]) by {
                if j < k {
                    assert(pair_views(pairs@)[j] == pair_views(before)[j]);
                }
            }
        }
        k = k + 1;
    }
    let ghost pv = pair_views(pairs@);
    proof {
        assert(pv.map_values(|p: (Seq<char>, u64)| p.0) =~= views(ids@));
        assert forall|id: Seq<char>| first_count(all_counts(caches@), id) is Some implies exists|k: int| 0 <= k < pv.len() && #[trigger] pv[k].0 == id by {
            assert(views(ids@).contains(id));
            let q = choose|q: int| 0 <= q < views(ids@).len() && views(ids@)[q] == id;
            assert(pv[q].0 == id);
        }
        assert(merged_count_pairs(pv, caches@));
    }
    let ghost module_count = entries.len();
    if pairs.len() > 0 {
        let text = download_counts_json(&pairs).unwrap();
        entries.push(TextEntry { path: text_copy("repository-cache/download_counts.json"), contents: text });
    }
    let elapsed: Duration = elapsed_since(&started);
    let load = ArchiveLoad { archive_entries, entries, bytes_read, elapsed };
    proof {
        let kv = views(keys@);
        assert forall|key: (Seq<char>, Seq<char>)| #[trigger] first_with_key(all, key) is Some <==> kv.contains(key) by {
            if kv.contains(key) {
                let q = choose|q: int| 0 <= q < kv.len() && kv[q] == key;
                assert(keys@[q]@ == key);
            }
        }
        assert forall|k: int| 0 <= k < kv.len() implies {
            &&& (#[trigger] load.entries@[k]).path@ == cache_entry_path(k as nat, kv[k])
            &&& load.entries@[k].contents@ == json_text_spec(first_with_key(all, kv[k])->0)
        } by {
            assert(kv[k] == keys@[k]@);
        }
        assert(repository_load_of(load, caches@, bytes_read));
    }
    Ok(load)
}

// ---------------------------------------------------------------------------
// Priority
// ---------------------------------------------------------------------------

proof fn lemma_first_with_key_append(a: Seq<CachedModule>, b: Seq<CachedModule>, key: (Seq<char>, Seq<char>))
    ensures
        first_with_key(a + b, key) == match first_with_key(a, key) {
            Some(v) => Some(v),
            None => first_with_key(b, key),
        },
    decreases b.len(),
{
    if b.len() == 0 {
        assert(a + b =~= a);
    } else {
        lemma_first_with_key_append(a, b.drop_last(), key);
        assert((a + b).drop_last() =~= a + b.drop_last());
        assert((a + b).last() == b.last());
    }
}

proof fn lemma_first_with_key_absent(ms: Seq<CachedModule>, key: (Seq<char>, Seq<char>))
    requires
        forall|x: int| 0 <= x < ms.len() ==> cached_key(#[trigger] ms[x]) != key,
    ensures
        first_with_key(ms, key) is None,
    decreases ms.len(),
{
    if ms.len() > 0 {
        let p = ms.drop_last();
        assert forall|x: int| 0 <= x < p.len() implies cached_key(#[trigger] p[x]) != key by {
            assert(p[x] == ms[x]);
        }
        lemma_first_with_key_absent(p, key);
        assert(ms.last() == ms[ms.len() - 1]);
    }
}

proof fn lemma_first_with_key_at(ms: Seq<CachedModule>, i: int)
    requires
        0 <= i < ms.len(),
        forall|x: int| 0 <= x < i ==> cached_key(#[trigger] ms[x]) != cached_key(ms[i]),
    ensures
        first_with_key(ms, cached_key(ms[i])) == Some(ms[i].module),
{
    let key = cached_key(ms[i]);
    assert forall|x: int| 0 <= x < ms.take(i).len() implies cached_key(#[trigger] ms.take(i)[x]) != key by {
        assert(ms.take(i)[x] == ms[x]);
    }
    lemma_first_with_key_absent(ms.take(i), key);
    lemma_first_with_key_push(ms.take(i), ms[i], key);
    assert(ms.take(i).push(ms[i]) =~= ms.take(i + 1));
    lemma_first_with_key_append(ms.take(i + 1), ms.skip(i + 1), key);
    assert(ms.take(i + 1) + ms.skip(i + 1) =~= ms);
}

proof fn lemma_all_cached_split(caches: Seq<RepositoryCache>, i: int)
    requires
        0 <= i < caches.len(),
    ensures
        all_cached(caches) == all_cached(caches.take(i)) + caches[i].modules@ + all_cached(caches.skip(i + 1)),
    decreases caches.len(),
{
    if i == caches.len() - 1 {
        assert(caches.drop_last() =~= caches.take(i));
        assert(caches.skip(i + 1) =~= Seq::<RepositoryCache>::empty());
        assert(all_cached(caches.skip(i + 1)) =~= Seq::<CachedModule>::empty());
        assert(all_cached(caches.take(i)) + caches[i].modules@ + Seq::<CachedModule>::empty() =~= all_cached(caches.take(i)) + caches[i].modules@);
    } else {
        let p = caches.drop_last();
        lemma_all_cached_split(p, i);
        assert(p.take(i) =~= caches.take(i));
        assert(p[i] == caches[i]);
        let rest = caches.skip(i + 1);
        assert(rest.drop_last() =~= p.skip(i + 1));
        assert(rest.last() == caches.last());
        assert(all_cached(rest) == all_cached(p.skip(i + 1)) + caches.last().modules@);
        assert(all_cached(caches.take(i)) + caches[i].modules@ + all_cached(rest) =~= all_cached(caches.take(i))
            + caches[i].modules@ + all_cached(p.skip(i + 1)) + caches.last().modules@);
    }
}

/// The first repository wins: when a module version is the first of its
/// identifier and version in its cache and no cache before it has that
/// identifier and version, the merge keeps exactly that module version.
pub proof fn lemma_first_repository_wins(caches: Seq<RepositoryCache>, i: int, m: int)
    requires
        0 <= i < caches.len(),
        0 <= m < caches[i].modules.len(),
        forall|j: int, x: int|
            0 <= j < i && 0 <= x < caches[j].modules.len() ==> cached_key(#[trigger] caches[j].modules@[x])
                != cached_key(caches[i].modules@[m]),
        forall|x: int| 0 <= x < m ==> cached_key(#[trigger] caches[i].modules@[x]) != cached_key(caches[i].modules@[m]),
    ensures
        first_with_key(all_cached(caches), cached_key(caches[i].modules@[m])) == Some(caches[i].modules@[m].module),
{
    let key = cached_key(caches[i].modules@[m]);
    let before = all_cached(caches.take(i));
    lemma_all_cached_split(caches, i);
    assert forall|x: int| 0 <= x < before.len() implies cached_key(#[trigger] before[x]) != key by {
        lemma_all_cached_member(caches.take(i), x);
        let (j, y) = choose|j: int, y: int| 0 <= j < caches.take(i).len() && 0 <= y < caches.take(i)[j].modules.len() && caches.take(i)[j].modules@[y] == before[x];
        assert(caches.take(i)[j] == caches[j]);
        assert(cached_key(caches[j].modules@[y]) != key);
    }
    lemma_first_with_key_absent(before, key);
    lemma_first_with_key_at(caches[i].modules@, m);
    lemma_first_with_key_append(before, caches[i].modules@, key);
    lemma_first_with_key_append(before + caches[i].modules@, all_cached(caches.skip(i + 1)), key);
}

proof fn lemma_all_cached_member(caches: Seq<RepositoryCache>, x: int)
    requires
        0 <= x < all_cached(caches).len(),
    ensures
        exists|j: int, y: int|
            0 <= j < caches.len() && 0 <= y < caches[j].modules.len() && caches[j].modules@[y] == all_cached(caches)[x],
    decreases caches.len(),
{
    if caches.len() > 0 {
        let p = caches.drop_last();
        let a = all_cached(p);
        if x < a.len() {
            lemma_all_cached_member(p, x);
            let (j, y) = choose|j: int, y: int| 0 <= j < p.len() && 0 <= y < p[j].modules.len() && p[j].modules@[y] == a[x];
            assert(caches[j] == p[j]);
            assert(all_cached(caches)[x] == a[x]);
        } else {
            let j = caches.len() - 1;
            let y = x - a.len();
            assert(all_cached(caches)[x] == caches.last().modules@[y]);
            assert(caches[j].modules@[y] == all_cached(caches)[x]);
        }
    }
}

proof fn lemma_first_count_append(a: Seq<CachedCount>, b: Seq<CachedCount>, id: Seq<char>)
    ensures
        first_count(a + b, id) == match first_count(a, id) {
            Some(n) => Some(n),
            None => first_count(b, id),
        },
    decreases b.len(),
{
    if b.len() == 0 {
        assert(a + b =~= a);
    } else {
        lemma_first_count_append(a, b.drop_last(), id);
        assert((a + b).drop_last() =~= a + b.drop_last());
        assert((a + b).last() == b.last());
    }
}

proof fn lemma_first_count_absent(cs: Seq<CachedCount>, id: Seq<char>)
    requires
        forall|x: int| 0 <= x < cs.len() ==> (#[trigger] cs[x]).identifier@ != id,
    ensures
        first_count(cs, id) is None,
    decreases cs.len(),
{
    if cs.len() > 0 {
        let p = cs.drop_last();
        assert forall|x: int| 0 <= x < p.len() implies (#[trigger] p[x]).identifier@ != id by {
            assert(p[x] == cs[x]);
        }
        lemma_first_count_absent(p, id);
        assert(cs.last() == cs[cs.len() - 1]);
    }
}

proof fn lemma_first_count_at(cs: Seq<CachedCount>, i: int)
    requires
        0 <= i < cs.len(),
        forall|x: int| 0 <= x < i ==> (#[trigger] cs[x]).identifier@ != cs[i].identifier@,
    ensures
        first_count(cs, cs[i].identifier@) == Some(cs[i].count),
{
    let id = cs[i].identifier@;
    assert forall|x: int| 0 <= x < cs.take(i).len() implies (#[trigger] cs.take(i)[x]).identifier@ != id by {
        assert(cs.take(i)[x] == cs[x]);
    }
    lemma_first_count_absent(cs.take(i), id);
    lemma_first_count_push(cs.take(i), cs[i], id);
    assert(cs.take(i).push(cs[i]) =~= cs.take(i + 1));
    lemma_first_count_append(cs.take(i + 1), cs.skip(i + 1), id);
    assert(cs.take(i + 1) + cs.skip(i + 1) =~= cs);
}

proof fn lemma_all_counts_split(caches: Seq<RepositoryCache>, i: int)
    requires
        0 <= i < caches.len(),
    ensures
        all_counts(caches) == all_counts(caches.take(i)) + caches[i].download_counts@ + all_counts(caches.skip(i + 1)),
    decreases caches.len(),
{
    if i == caches.len() - 1 {
        assert(caches.drop_last() =~= caches.take(i));
        assert(caches.skip(i + 1) =~= Seq::<RepositoryCache>::empty());
        assert(all_counts(caches.skip(i + 1)) =~= Seq::<CachedCount>::empty());
        assert(all_counts(caches.take(i)) + caches[i].download_counts@ + Seq::<CachedCount>::empty() =~= all_counts(
            caches.take(i),
        ) + caches[i].download_counts@);
    } else {
        let p = caches.drop_last();
        lemma_all_counts_split(p, i);
        assert(p.take(i) =~= caches.take(i));
        assert(p[i] == caches[i]);
        let rest = caches.skip(i + 1);
        assert(rest.drop_last() =~= p.skip(i + 1));
        assert(rest.last() == caches.last());
        assert(all_counts(rest) == all_counts(p.skip(i + 1)) + caches.last().download_counts@);
        assert(all_counts(caches.take(i)) + caches[i].download_counts@ + all_counts(rest) =~= all_counts(caches.take(i))
            + caches[i].download_counts@ + all_counts(p.skip(i + 1)) + caches.last().download_counts@);
    }
}

proof fn lemma_all_counts_member(caches: Seq<RepositoryCache>, x: int)
    requires
        0 <= x < all_counts(caches).len(),
    ensures
        exists|j: int, y: int|
            0 <= j < caches.len() && 0 <= y < caches[j].download_counts.len() && caches[j].download_counts@[y]
                == all_counts(caches)[x],
    decreases caches.len(),
{
    if caches.len() > 0 {
        let p = caches.drop_last();
        let a = all_counts(p);
        if x < a.len() {
            lemma_all_counts_member(p, x);
            let (j, y) = choose|j: int, y: int|
                0 <= j < p.len() && 0 <= y < p[j].download_counts.len() && p[j].download_counts@[y] == a[x];
            assert(caches[j] == p[j]);
            assert(all_counts(caches)[x] == a[x]);
        } else {
            let j = caches.len() - 1;
            let y = x - a.len();
            assert(all_counts(caches)[x] == caches.last().download_counts@[y]);
            assert(caches[j].download_counts@[y] == all_counts(caches)[x]);
        }
    }
}

/// The first repository wins for download counts too: when a count is the
/// first for its identifier in its cache and no cache before it counts that
/// identifier, the merged counts keep exactly that count.
pub proof fn lemma_first_repository_count_wins(caches: Seq<RepositoryCache>, i: int, c: int)
    requires
        0 <= i < caches.len(),
        0 <= c < caches[i].download_counts.len(),
        forall|j: int, x: int|
            0 <= j < i && 0 <= x < caches[j].download_counts.len() ==> (#[trigger] caches[j].download_counts@[x]).identifier@
                != caches[i].download_counts@[c].identifier@,
        forall|x: int|
            0 <= x < c ==> (#[trigger] caches[i].download_counts@[x]).identifier@
                != caches[i].download_counts@[c].identifier@,
    ensures
        first_count(all_counts(caches), caches[i].download_counts@[c].identifier@) == Some(
            caches[i].download_counts@[c].count,
        ),
{
    let id = caches[i].download_counts@[c].identifier@;
    let before = all_counts(caches.take(i));
    lemma_all_counts_split(caches, i);
    assert forall|x: int| 0 <= x < before.len() implies (#[trigger] before[x]).identifier@ != id by {
        lemma_all_counts_member(caches.take(i), x);
        let (j, y) = choose|j: int, y: int|
            0 <= j < caches.take(i).len() && 0 <= y < caches.take(i)[j].download_counts.len()
                && caches.take(i)[j].download_counts@[y] == before[x];
        assert(caches.take(i)[j] == caches[j]);
        assert(caches[j].download_counts@[y].identifier@ != id);
    }
    lemma_first_count_absent(before, id);
    lemma_first_count_at(caches[i].download_counts@, c);
    lemma_first_count_append(before, caches[i].download_counts@, id);
    lemma_first_count_append(before + caches[i].download_counts@, all_counts(caches.skip(i + 1)), id);
}

/// Merged modules at different positions get different paths.
proof fn lemma_cache_paths_distinct(i: nat, j: nat, ki: (Seq<char>, Seq<char>), kj: (Seq<char>, Seq<char>))
    requires
        i != j,
    ensures
        cache_entry_path(i, ki) != cache_entry_path(j, kj),
{
    reveal_strlit("repository-cache/");
    reveal_strlit("-");
    let a = zero_padded_spec(i, 8);
    let b = zero_padded_spec(j, 8);
    lemma_zero_padded_value(i, 8);
    lemma_zero_padded_value(j, 8);
    let pi = cache_entry_path(i, ki);
    let pj = cache_entry_path(j, kj);
    if pi == pj {
        if a.len() < b.len() {
            assert(pi[17 + a.len() as int] == '-');
            assert(pj[17 + a.len() as int] == b[a.len() as int]);
            assert(is_ascii_digit(b[a.len() as int]));
        } else if b.len() < a.len() {
            assert(pj[17 + b.len() as int] == '-');
            assert(pi[17 + b.len() as int] == a[b.len() as int]);
            assert(is_ascii_digit(a[b.len() as int]));
        } else {
            assert forall|k: int| 0 <= k < a.len() implies a[k] == b[k] by {
                assert(pi[17 + k] == a[k]);
                assert(pj[17 + k] == b[k]);
            }
            assert(a =~= b);
        }
    }
}

/// The download counts entry never shares its path with a merged module.
proof fn lemma_counts_path_distinct(i: nat, key: (Seq<char>, Seq<char>))
    ensures
        cache_entry_path(i, key) != "repository-cache/download_counts.json"@,
{
    reveal_strlit("repository-cache/");
    reveal_strlit("repository-cache/download_counts.json");
    let a = zero_padded_spec(i, 8);
    lemma_zero_padded_value(i, 8);
    let p = cache_entry_path(i, key);
    assert(p[17] == a[0]);
    assert(is_ascii_digit(a[0]));
    assert("repository-cache/download_counts.json"@[17] == 'd');
}

/// The entries that merging repository caches gives have distinct paths.
pub proof fn lemma_repository_entry_paths_distinct(load: ArchiveLoad, caches: Seq<RepositoryCache>, bytes_read: u64)
    requires
        repository_load_of(load, caches, bytes_read),
    ensures
        forall|a: int, b: int|
            0 <= a < load.entries.len() && 0 <= b < load.entries.len() && a != b ==> (
            #[trigger] load.entries@[a]).path@ != (#[trigger] load.entries@[b]).path@,
{
    let all = all_cached(caches);
    let (keys, pairs) = choose|keys: Seq<(Seq<char>, Seq<char>)>, pairs: Seq<(Seq<char>, u64)>|
        {
            &&& #[trigger] strictly_ordered::<TextPair>(keys)
            &&& forall|key: (Seq<char>, Seq<char>)| #[trigger] first_with_key(all, key) is Some <==> keys.contains(key)
            &&& #[trigger] merged_count_pairs(pairs, caches)
            &&& load.entries.len() == keys.len() + if pairs.len() > 0 {
                1int
            } else {
                0
            }
            &&& forall|k: int|
                0 <= k < keys.len() ==> {
                    &&& (#[trigger] load.entries@[k]).path@ == cache_entry_path(k as nat, keys[k])
                    &&& load.entries@[k].contents@ == json_text_spec(first_with_key(all, keys[k])->0)
                }
            &&& pairs.len() > 0 ==> {
                &&& load.entries@[keys.len() as int].path@ == "repository-cache/download_counts.json"@
                &&& counts_json(pairs) == Some(load.entries@[keys.len() as int].contents@)
            }
        };
    assert forall|a: int, b: int|
        0 <= a < load.entries.len() && 0 <= b < load.entries.len() && a != b implies (
        #[trigger] load.entries@[a]).path@ != (#[trigger] load.entries@[b]).path@ by {
        let n = keys.len() as int;
        if a < n && b < n {
            lemma_cache_paths_distinct(a as nat, b as nat, keys[a], keys[b]);
        } else if a < n {
            lemma_counts_path_distinct(a as nat, keys[a]);
        } else if b < n {
            lemma_counts_path_distinct(b as nat, keys[b]);
        }
    }
}

} // verus!
