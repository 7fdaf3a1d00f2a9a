//! The CKAN-Linux catalog sidecar: latest versions per release stability,
//! version counts, and the catalog's modules, relations and providers.

use vstd::prelude::*;

use crate::keymap::{find_text, key_lt, key_position, lemma_insert_ordered, search_key, strictly_ordered};
use crate::model::{ArchiveParse, CatalogIndex, CatalogIndexReport, CatalogModule, CatalogProvider, CatalogRelation, ParsedModule};
use crate::order::{sort_dedup_strings, strictly_sorted};
use crate::text::{split_char, split_spec, trim, trim_spec};
use crate::module_entry::{release_status_rank, release_status_rank_spec};
use crate::order::{opt_view, views};
use crate::version::{compare_versions, compare_versions_spec};

verus! {

/// The identifier under which a module is catalogued: its identifier when
/// present and not empty.
pub open spec fn module_identifier(m: ParsedModule) -> Option<Seq<char>> {
    match m.identifier {
        Some(id) => if id@.len() > 0 {
            Some(id@)
        } else {
            None
        },
        None => None,
    }
}

/// Whether module `m` is a candidate for the latest version at a stability
/// tolerance (0 stable, 1 testing, 2 development): its release status ranks
/// no higher than the tolerance.
pub open spec fn within_tolerance(m: ParsedModule, tolerance: nat) -> bool {
    release_status_rank_spec(m.release_status@) <= tolerance
}

/// The position of the latest module with identifier `id` at a tolerance:
/// scanning in order, a candidate replaces the current one when its version
/// compares greater.
pub open spec fn latest_index(modules: Seq<ParsedModule>, id: Seq<char>, tolerance: nat) -> Option<
    int,
>
    decreases modules.len(),
{
    if modules.len() == 0 {
        None
    } else {
        let current = latest_index(modules.drop_last(), id, tolerance);
        let m = modules.last();
        if module_identifier(m) == Some(id) && within_tolerance(m, tolerance) && match current {
            None => true,
            Some(j) => compare_versions_spec(opt_view(m.version), opt_view(modules[j].version)) > 0,
        } {
            Some(modules.len() - 1)
        } else {
            current
        }
    }
}

pub proof fn lemma_latest_index_range(modules: Seq<ParsedModule>, id: Seq<char>, tolerance: nat)
    ensures
        latest_index(modules, id, tolerance) matches Some(j) ==> {
            &&& 0 <= j < modules.len()
            &&& module_identifier(modules[j]) == Some(id)
            &&& within_tolerance(modules[j], tolerance)
        },
    decreases modules.len(),
{
    if modules.len() > 0 {
        lemma_latest_index_range(modules.drop_last(), id, tolerance);
    }
}

/// A latest module exists exactly when some module with the identifier is
/// within the tolerance.
pub proof fn lemma_latest_index_exists(modules: Seq<ParsedModule>, id: Seq<char>, tolerance: nat)
    ensures
        latest_index(modules, id, tolerance) is Some <==> exists|j: int|
            0 <= j < modules.len() && module_identifier(#[trigger] modules[j]) == Some(id)
                && within_tolerance(modules[j], tolerance),
    decreases modules.len(),
{
    if modules.len() > 0 {
        let p = modules.drop_last();
        lemma_latest_index_exists(p, id, tolerance);
        if exists|j: int|
            0 <= j < p.len() && module_identifier(#[trigger] p[j]) == Some(id) && within_tolerance(
                p[j],
                tolerance,
            ) {
            let j = choose|j: int|
                0 <= j < p.len() && module_identifier(#[trigger] p[j]) == Some(id)
                    && within_tolerance(p[j], tolerance);
            assert(modules[j] == p[j]);
        }
        if exists|j: int|
            0 <= j < modules.len() && module_identifier(#[trigger] modules[j]) == Some(id)
                && within_tolerance(modules[j], tolerance) {
            let j = choose|j: int|
                0 <= j < modules.len() && module_identifier(#[trigger] modules[j]) == Some(id)
                    && within_tolerance(modules[j], tolerance);
            if j < modules.len() - 1 {
                assert(p[j] == modules[j]);
            }
        }
    }
}

/// Adding a module with another identifier leaves the latest position alone.
proof fn lemma_latest_index_step(modules: Seq<ParsedModule>, i: int, id: Seq<char>, tolerance: nat)
    requires
        0 <= i < modules.len(),
    ensures
        latest_index(modules.take(i + 1), id, tolerance) == {
            let current = latest_index(modules.take(i), id, tolerance);
            let m = modules[i];
            if module_identifier(m) == Some(id) && within_tolerance(m, tolerance) && match current {
                None => true,
                Some(j) => compare_versions_spec(opt_view(m.version), opt_view(modules[j].version))
                    > 0,
            } {
                Some(i)
            } else {
                current
            }
        },
{
    let t = modules.take(i + 1);
    assert(t.drop_last() =~= modules.take(i));
    assert(t.last() == modules[i]);
    lemma_latest_index_range(modules.take(i), id, tolerance);
    if let Some(j) = latest_index(modules.take(i), id, tolerance) {
        assert(t[j] == modules[j]);
    }
}

/// The paths of the latest modules of one identifier at each tolerance.
pub struct LatestModulePaths {
    pub stable: Option<String>,
    pub testing: Option<String>,
    pub development: Option<String>,
}

impl LatestModulePaths {
    /// Whether `path` is the latest module at some tolerance.
    pub fn contains(&self, path: &str) -> (r: bool)
        ensures
            r == (opt_view(self.stable) == Some(path@) || opt_view(self.testing) == Some(path@)
                || opt_view(self.development) == Some(path@)),
    {
        opt_text_is(&self.stable, path) || opt_text_is(&self.testing, path) || opt_text_is(
            &self.development,
            path,
        )
    }
}

/// Whether an optional text is the given text.
pub fn opt_text_is(value: &Option<String>, text: &str) -> (r: bool)
    ensures
        r == (opt_view(*value) == Some(text@)),
{
    match value {
        Some(v) => crate::text::text_eq(v.as_str(), text),
        None => false,
    }
}

/// The latest paths of every catalogued identifier, by identifier.
pub struct LatestPaths {
    pub identifiers: Vec<String>,
    pub paths: Vec<LatestModulePaths>,
}

pub open spec fn path_at(modules: Seq<ParsedModule>, index: Option<int>) -> Option<Seq<char>> {
    match index {
        Some(j) => Some(modules[j].path@),
        None => None,
    }
}

/// Whether some module carries the identifier.
pub open spec fn has_identifier(modules: Seq<ParsedModule>, id: Seq<char>) -> bool {
    exists|j: int| 0 <= j < modules.len() && module_identifier(#[trigger] modules[j]) == Some(id)
}

/// `latest` holds, for each identifier of `modules`, the paths of its latest
/// modules at the stable, testing and development tolerances.
pub open spec fn latest_paths_of(latest: LatestPaths, modules: Seq<ParsedModule>) -> bool {
    &&& latest.identifiers.len() == latest.paths.len()
    &&& strictly_ordered::<String>(views(latest.identifiers@))
    &&& forall|id: Seq<char>| views(latest.identifiers@).contains(id) <==> has_identifier(modules, id)
    &&& forall|k: int|
        0 <= k < latest.paths.len() ==> {
            let id = #[trigger] latest.identifiers@[k]@;
            &&& opt_view(latest.paths@[k].stable) == path_at(modules, latest_index(modules, id, 0))
            &&& opt_view(latest.paths@[k].testing) == path_at(modules, latest_index(modules, id, 1))
            &&& opt_view(latest.paths@[k].development) == path_at(
                modules,
                latest_index(modules, id, 2),
            )
        }
}

/// Whether module `i` (a candidate of its identifier at a tolerance)
/// replaces the current latest position.
fn replaces(modules: &[ParsedModule], i: usize, current: Option<usize>) -> (r: bool)
    requires
        i < modules.len(),
        current matches Some(j) ==> j < modules.len(),
    ensures
        r == match current {
            None => true,
            Some(j) => compare_versions_spec(
                opt_view(modules@[i as int].version),
                opt_view(modules@[j as int].version),
            ) > 0,
        },
{
    match current {
        None => true,
        Some(j) => compare_versions(&modules[i].version, &modules[j].version) > 0,
    }
}

pub type Slots = (Option<usize>, Option<usize>, Option<usize>);

/// The search state after reading the first `n` modules: the identifiers
/// seen so far, in order, with the positions of their latest modules.
pub open spec fn slots_inv(ids: Seq<String>, slots: Seq<Slots>, modules: Seq<ParsedModule>, n: int) -> bool {
    &&& 0 <= n <= modules.len()
    &&& ids.len() == slots.len()
    &&& strictly_ordered::<String>(views(ids))
    &&& forall|id: Seq<char>| views(ids).contains(id) <==> has_identifier(modules.take(n), id)
    &&& forall|k: int|
        0 <= k < slots.len() ==> {
            let id = #[trigger] ids[k]@;
            &&& slots[k].0 == opt_int(latest_index(modules.take(n), id, 0))
            &&& slots[k].1 == opt_int(latest_index(modules.take(n), id, 1))
            &&& slots[k].2 == opt_int(latest_index(modules.take(n), id, 2))
        }
    &&& forall|k: int| 0 <= k < slots.len() ==> slot_bounds(#[trigger] slots[k], n)
}

proof fn lemma_has_identifier_step(modules: Seq<ParsedModule>, i: int)
    requires
        0 <= i < modules.len(),
    ensures
        forall|x: Seq<char>| #[trigger] has_identifier(modules.take(i + 1), x) <==> (has_identifier(
            modules.take(i),
            x,
        ) || module_identifier(modules[i]) == Some(x)),
{
    let prefix = modules.take(i);
    let next = modules.take(i + 1);
    assert forall|x: Seq<char>| #[trigger] has_identifier(next, x) <==> (has_identifier(prefix, x)
        || module_identifier(modules[i]) == Some(x)) by {
        if has_identifier(next, x) {
            let j = choose|j: int| 0 <= j < next.len() && module_identifier(#[trigger] next[j]) == Some(x);
            if j < i {
                assert(prefix[j] == next[j]);
            }
        }
        if has_identifier(prefix, x) {
            let j = choose|j: int| 0 <= j < prefix.len() && module_identifier(#[trigger] prefix[j]) == Some(x);
            assert(next[j] == prefix[j]);
        }
        if module_identifier(modules[i]) == Some(x) {
            assert(next[i] == modules[i]);
        }
    }
}

/// Reading a module without an identifier changes nothing.
proof fn lemma_skip_module(ids: Seq<String>, slots: Seq<Slots>, modules: Seq<ParsedModule>, i: int)
    requires
        slots_inv(ids, slots, modules, i),
        i < modules.len(),
        module_identifier(modules[i]) is None,
    ensures
        slots_inv(ids, slots, modules, i + 1),
{
    lemma_has_identifier_step(modules, i);
    assert forall|k: int| 0 <= k < slots.len() implies {
        let id = #[trigger] ids[k]@;
        &&& slots[k].0 == opt_int(latest_index(modules.take(i + 1), id, 0))
        &&& slots[k].1 == opt_int(latest_index(modules.take(i + 1), id, 1))
        &&& slots[k].2 == opt_int(latest_index(modules.take(i + 1), id, 2))
    } by {
        lemma_latest_index_step(modules, i, ids[k]@, 0);
        lemma_latest_index_step(modules, i, ids[k]@, 1);
        lemma_latest_index_step(modules, i, ids[k]@, 2);
    }
}

/// The new latest position of one tolerance after reading module `i`.
fn next_slot(modules: &[ParsedModule], i: usize, rank: usize, tolerance: usize, current: Option<usize>) -> (r: Option<usize>)
    requires
        i < modules.len(),
        current matches Some(j) ==> j < i,
        rank == release_status_rank_spec(modules@[i as int].release_status@),
    ensures
        r == if within_tolerance(modules@[i as int], tolerance as nat) && match current {
            None => true,
            Some(j) => compare_versions_spec(
                opt_view(modules@[i as int].version),
                opt_view(modules@[j as int].version),
            ) > 0,
        } {
            Some(i)
        } else {
            current
        },
        r matches Some(j) ==> j <= i,
{
    if rank <= tolerance && replaces(modules, i, current) {
        Some(i)
    } else {
        current
    }
}

/// Records module `i` in the search state.
fn record_module(modules: &[ParsedModule], i: usize, ids: &mut Vec<String>, slots: &mut Vec<Slots>)
    requires
        i < modules.len(),
        slots_inv(old(ids)@, old(slots)@, modules@, i as int),
    ensures
        slots_inv(final(ids)@, final(slots)@, modules@, i + 1),
{
    let ghost prefix = modules@.take(i as int);
    let ghost next = modules@.take(i + 1);
    proof {
        lemma_has_identifier_step(modules@, i as int);
    }
    let identifier = match &modules[i].identifier {
        Some(id) => {
            if id.as_str().is_empty() {
                None
            } else {
                Some(id)
            }
        },
        None => None,
    };
    let id = match identifier {
        None => {
            proof {
                lemma_skip_module(ids@, slots@, modules@, i as int);
            }
            return;
        },
        Some(id) => id,
    };
    proof {
        assert(module_identifier(modules@[i as int]) == Some(id@));
    }
    let rank = release_status_rank(modules[i].release_status.as_str());
    match search_key(ids, id) {
        Ok(k) => {
            let (s0, s1, s2) = slots[k];
            proof {
                assert(slot_bounds(slots@[k as int], i as int));
                assert(ids@[k as int]@ == id@);
                lemma_latest_index_range(prefix, id@, 0);
                lemma_latest_index_range(prefix, id@, 1);
                lemma_latest_index_range(prefix, id@, 2);
                lemma_latest_index_step(modules@, i as int, id@, 0);
                lemma_latest_index_step(modules@, i as int, id@, 1);
                lemma_latest_index_step(modules@, i as int, id@, 2);
                assert(views(ids@)[k as int] == id@);
            }
            let n0 = next_slot(modules, i, rank, 0, s0);
            let n1 = next_slot(modules, i, rank, 1, s1);
            let n2 = next_slot(modules, i, rank, 2, s2);
            let ghost old_slots = slots@;
            slots.set(k, (n0, n1, n2));
            proof {
                assert forall|m: int| 0 <= m < slots.len() implies {
                    let mid = #[trigger] ids@[m]@;
                    &&& slots@[m].0 == opt_int(latest_index(next, mid, 0))
                    &&& slots@[m].1 == opt_int(latest_index(next, mid, 1))
                    &&& slots@[m].2 == opt_int(latest_index(next, mid, 2))
                } by {
                    if m != k {
                        assert(views(ids@)[m] == ids@[m]@);
                        assert(ids@[m]@ != id@);
                        assert(slots@[m] == old_slots[m]);
                        lemma_latest_index_step(modules@, i as int, ids@[m]@, 0);
                        lemma_latest_index_step(modules@, i as int, ids@[m]@, 1);
                        lemma_latest_index_step(modules@, i as int, ids@[m]@, 2);
                    }
                }
                assert forall|m: int| 0 <= m < slots.len() implies slot_bounds(#[trigger] slots@[m], i + 1) by {
                    if m != k {
                        assert(slots@[m] == old_slots[m]);
                        assert(slot_bounds(old_slots[m], i as int));
                    }
                }
                assert forall|x: Seq<char>| views(ids@).contains(x) <==> has_identifier(next, x) by {
                    if x == id@ {
                        assert(views(ids@)[k as int] == x);
                    }
                }
            }
        },
        Err(p) => {
            proof {
                assert(!views(ids@).contains(id@)) by {
                    if views(ids@).contains(id@) {
                        let k = choose|k: int| 0 <= k < views(ids@).len() && views(ids@)[k] == id@;
                        assert(views(ids@)[k] == ids@[k]@);
                        if k < p {
                            assert(key_lt::<String>(ids@[k]@, id@));
                        } else {
                            assert(key_lt::<String>(id@, ids@[k]@));
                        }
                    }
                }
                assert(!has_identifier(prefix, id@));
                lemma_latest_none(prefix, id@, 0);
                lemma_latest_none(prefix, id@, 1);
                lemma_latest_none(prefix, id@, 2);
                lemma_latest_index_step(modules@, i as int, id@, 0);
                lemma_latest_index_step(modules@, i as int, id@, 1);
                lemma_latest_index_step(modules@, i as int, id@, 2);
                lemma_insert_ordered::<String>(ids@, p as int, *id);
            }
            let n0 = next_slot(modules, i, rank, 0, None);
            let n1 = next_slot(modules, i, rank, 1, None);
            let n2 = next_slot(modules, i, rank, 2, None);
            let ghost old_ids = ids@;
            let ghost old_slots = slots@;
            ids.insert(p, id.clone());
            slots.insert(p, (n0, n1, n2));
            proof {
                assert(views(ids@) == views(old_ids).insert(p as int, id@));
                lemma_contains_insert(views(old_ids), p as int, id@);
                assert forall|m: int| 0 <= m < slots.len() implies {
                    let mid = #[trigger] ids@[m]@;
                    &&& slots@[m].0 == opt_int(latest_index(next, mid, 0))
                    &&& slots@[m].1 == opt_int(latest_index(next, mid, 1))
                    &&& slots@[m].2 == opt_int(latest_index(next, mid, 2))
                } by {
                    if m != p {
                        let om = if m < p { m } else { m - 1 };
                        assert(ids@[m] == old_ids[om]);
                        assert(slots@[m] == old_slots[om]);
                        assert(views(old_ids)[om] == old_ids[om]@);
                        assert(views(old_ids).contains(old_ids[om]@));
                        assert(old_ids[om]@ != id@);
                        lemma_latest_index_step(modules@, i as int, old_ids[om]@, 0);
                        lemma_latest_index_step(modules@, i as int, old_ids[om]@, 1);
                        lemma_latest_index_step(modules@, i as int, old_ids[om]@, 2);
                    } else {
                        assert(ids@[m] == *id);
                    }
                }
                assert forall|m: int| 0 <= m < slots.len() implies slot_bounds(#[trigger] slots@[m], i + 1) by {
                    if m < p {
                        assert(slots@[m] == old_slots[m]);
                        assert(slot_bounds(old_slots[m], i as int));
                    } else if m > p {
                        assert(slots@[m] == old_slots[m - 1]);
                        assert(slot_bounds(old_slots[m - 1], i as int));
                    }
                }
            }
        },
    }
}

/// The latest module of each identifier at each stability tolerance.
pub fn latest_paths_by_stability(modules: &[ParsedModule]) -> (r: LatestPaths)
    ensures
        latest_paths_of(r, modules@),
{
    let mut ids: Vec<String> = Vec::new();
    let mut slots: Vec<Slots> = Vec::new();
    let mut i: usize = 0;
    proof {
        assert forall|id: Seq<char>| !has_identifier(modules@.take(0), id) by {}
    }
    while i < modules.len()
        invariant
            i <= modules.len(),
            slots_inv(ids@, slots@, modules@, i as int),
        decreases modules.len() - i,
    {
        record_module(modules, i, &mut ids, &mut slots);
        i = i + 1;
    }
    proof {
        assert(modules@.take(modules.len() as int) =~= modules@);
    }
    let mut paths: Vec<LatestModulePaths> = Vec::new();
    let mut k: usize = 0;
    while k < slots.len()
        invariant
            k <= slots.len(),
            ids.len() == slots.len(),
            paths.len() == k,
            forall|m: int| 0 <= m < slots.len() ==> slot_bounds(#[trigger] slots@[m], modules.len() as int),
            forall|m: int|
                0 <= m < k ==> {
                    &&& opt_view(#[trigger] paths@[m].stable) == path_at(modules@, opt_index(slots@[m].0))
                    &&& opt_view(paths@[m].testing) == path_at(modules@, opt_index(slots@[m].1))
                    &&& opt_view(paths@[m].development) == path_at(modules@, opt_index(slots@[m].2))
                },
        decreases slots.len() - k,
    {
        let (s0, s1, s2) = slots[k];
        proof {
            assert(slot_bounds(slots@[k as int], modules.len() as int));
        }
        let entry = LatestModulePaths {
            stable: path_of(modules, s0),
            testing: path_of(modules, s1),
            development: path_of(modules, s2),
        };
        paths.push(entry);
        k = k + 1;
    }
    proof {
        assert forall|m: int| 0 <= m < paths.len() implies {
            let id = #[trigger] ids@[m]@;
            &&& opt_view(paths@[m].stable) == path_at(modules@, latest_index(modules@, id, 0))
            &&& opt_view(paths@[m].testing) == path_at(modules@, latest_index(modules@, id, 1))
            &&& opt_view(paths@[m].development) == path_at(modules@, latest_index(modules@, id, 2))
        } by {
            let id = ids@[m]@;
            lemma_latest_index_range(modules@, id, 0);
            lemma_latest_index_range(modules@, id, 1);
            lemma_latest_index_range(modules@, id, 2);
        }
    }
    LatestPaths { identifiers: ids, paths }
}

pub open spec fn opt_int(o: Option<int>) -> Option<usize> {
    match o {
        Some(j) => Some(j as usize),
        None => None,
    }
}

pub open spec fn opt_index(o: Option<usize>) -> Option<int> {
    match o {
        Some(j) => Some(j as int),
        None => None,
    }
}

pub open spec fn slot_bounds(s: (Option<usize>, Option<usize>, Option<usize>), n: int) -> bool {
    &&& s.0 matches Some(j) ==> j < n
    &&& s.1 matches Some(j) ==> j < n
    &&& s.2 matches Some(j) ==> j < n
}

proof fn lemma_contains_insert(s: Seq<Seq<char>>, p: int, v: Seq<char>)
    requires
        0 <= p <= s.len(),
    ensures
        forall|x: Seq<char>| #[trigger] s.insert(p, v).contains(x) <==> (s.contains(x) || x == v),
{
    let n = s.insert(p, v);
    assert forall|x: Seq<char>| #[trigger] n.contains(x) <==> (s.contains(x) || x == v) by {
        if n.contains(x) {
            let k = choose|k: int| 0 <= k < n.len() && n[k] == x;
            if k < p {
                assert(s[k] == x);
            } else if k > p {
                assert(s[k - 1] == x);
            }
        }
        if s.contains(x) {
            let k = choose|k: int| 0 <= k < s.len() && s[k] == x;
            if k < p {
                assert(n[k] == x);
            } else {
                assert(n[k + 1] == x);
            }
        }
        if x == v {
            assert(n[p] == x);
        }
    }
}

proof fn lemma_latest_none(modules: Seq<ParsedModule>, id: Seq<char>, tolerance: nat)
    requires
        !has_identifier(modules, id),
    ensures
        latest_index(modules, id, tolerance) is None,
{
    lemma_latest_index_range(modules, id, tolerance);
}

fn path_of(modules: &[ParsedModule], index: Option<usize>) -> (r: Option<String>)
    requires
        index matches Some(j) ==> j < modules.len(),
    ensures
        opt_view(r) == path_at(modules@, opt_index(index)),
{
    match index {
        Some(j) => Some(modules[j].path.clone()),
        None => None,
    }
}

} // verus!

verus! {

// ---------------------------------------------------------------------------
// Version counts and download counts
// ---------------------------------------------------------------------------

/// How many modules carry the identifier.
pub open spec fn identifier_count(modules: Seq<ParsedModule>, id: Seq<char>) -> nat
    decreases modules.len(),
{
    if modules.len() == 0 {
        0
    } else {
        identifier_count(modules.drop_last(), id) + if module_identifier(modules.last()) == Some(
            id,
        ) {
            1nat
        } else {
            0nat
        }
    }
}

pub proof fn lemma_identifier_count_bound(modules: Seq<ParsedModule>, id: Seq<char>)
    ensures
        identifier_count(modules, id) <= modules.len(),
        identifier_count(modules, id) > 0 <==> has_identifier(modules, id),
    decreases modules.len(),
{
    if modules.len() > 0 {
        let p = modules.drop_last();
        lemma_identifier_count_bound(p, id);
        if has_identifier(p, id) {
            let j = choose|j: int| 0 <= j < p.len() && module_identifier(#[trigger] p[j]) == Some(id);
            assert(modules[j] == p[j]);
        }
        if has_identifier(modules, id) {
            let j = choose|j: int| 0 <= j < modules.len() && module_identifier(#[trigger] modules[j]) == Some(id);
            if j < modules.len() - 1 {
                assert(p[j] == modules[j]);
            }
        }
    }
}

/// The number of modules of each identifier, by identifier.
pub struct IdentifierCounts {
    pub identifiers: Vec<String>,
    pub counts: Vec<usize>,
}

pub open spec fn identifier_counts_of(c: IdentifierCounts, modules: Seq<ParsedModule>) -> bool {
    &&& c.identifiers.len() == c.counts.len()
    &&& strictly_ordered::<String>(views(c.identifiers@))
    &&& forall|id: Seq<char>| views(c.identifiers@).contains(id) <==> has_identifier(modules, id)
    &&& forall|k: int|
        0 <= k < c.counts.len() ==> c.counts@[k] == identifier_count(
            modules,
            #[trigger] c.identifiers@[k]@,
        )
}

proof fn lemma_identifier_count_step(modules: Seq<ParsedModule>, i: int, id: Seq<char>)
    requires
        0 <= i < modules.len(),
    ensures
        identifier_count(modules.take(i + 1), id) == identifier_count(modules.take(i), id) + if module_identifier(modules[i]) == Some(id) {
            1nat
        } else {
            0nat
        },
{
    assert(modules.take(i + 1).drop_last() =~= modules.take(i));
    assert(modules.take(i + 1).last() == modules[i]);
}

/// The number of versions of each identifier.
pub fn version_counts_by_identifier(modules: &[ParsedModule]) -> (r: IdentifierCounts)
    ensures
        identifier_counts_of(r, modules@),
{
    let mut ids: Vec<String> = Vec::new();
    let mut counts: Vec<usize> = Vec::new();
    let mut i: usize = 0;
    proof {
        assert forall|id: Seq<char>| !has_identifier(modules@.take(0), id) by {}
    }
    while i < modules.len()
        invariant
            i <= modules.len(),
            ids.len() == counts.len(),
            strictly_ordered::<String>(views(ids@)),
            forall|id: Seq<char>| views(ids@).contains(id) <==> has_identifier(modules@.take(i as int), id),
            forall|k: int| 0 <= k < counts.len() ==> counts@[k] == identifier_count(modules@.take(i as int), #[trigger] ids@[k]@),
        decreases modules.len() - i,
    {
        let ghost prefix = modules@.take(i as int);
        let ghost next = modules@.take(i + 1);
        proof {
            lemma_has_identifier_step(modules@, i as int);
            assert forall|id: Seq<char>| #[trigger] identifier_count(next, id) == identifier_count(prefix, id) + if module_identifier(modules@[i as int]) == Some(id) { 1nat } else { 0nat } by {
                lemma_identifier_count_step(modules@, i as int, id);
            }
        }
        match &modules[i].identifier {
            Some(id) if !id.as_str().is_empty() => {
                proof {
                    assert(module_identifier(modules@[i as int]) == Some(id@));
                }
                match search_key(&ids, id) {
                    Ok(k) => {
                        proof {
                            assert(ids@[k as int]@ == id@);
                            lemma_identifier_count_bound(prefix, id@);
                            assert(views(ids@)[k as int] == id@);
                        }
                        let c = counts[k];
                        let ghost old_counts = counts@;
                        counts.set(k, c + 1);
                        proof {
                            assert forall|m: int| 0 <= m < counts.len() implies counts@[m] == identifier_count(next, #[trigger] ids@[m]@) by {
                                if m != k {
                                    assert(views(ids@)[m] == ids@[m]@);
                                    assert(counts@[m] == old_counts[m]);
                                }
                            }
                            assert forall|x: Seq<char>| views(ids@).contains(x) <==> has_identifier(next, x) by {
                                if x == id@ {
                                    assert(views(ids@)[k as int] == x);
                                }
                            }
                        }
                    },
                    Err(p) => {
                        proof {
                            assert(!views(ids@).contains(id@)) by {
                                if views(ids@).contains(id@) {
                                    let k = choose|k: int| 0 <= k < views(ids@).len() && views(ids@)[k] == id@;
                                    assert(views(ids@)[k] == ids@[k]@);
                                    if k < p {
                                        assert(key_lt::<String>(ids@[k]@, id@));
                                    } else {
                                        assert(key_lt::<String>(id@, ids@[k]@));
                                    }
                                }
                            }
                            lemma_identifier_count_bound(prefix, id@);
                            lemma_insert_ordered::<String>(ids@, p as int, *id);
                        }
                        let ghost old_ids = ids@;
                        let ghost old_counts = counts@;
                        ids.insert(p, id.clone());
                        counts.insert(p, 1);
                        proof {
                            lemma_contains_insert(views(old_ids), p as int, id@);
                            assert forall|m: int| 0 <= m < counts.len() implies counts@[m] == identifier_count(next, #[trigger] ids@[m]@) by {
                                if m != p {
                                    let om = if m < p { m } else { m - 1 };
                                    assert(ids@[m] == old_ids[om]);
                                    assert(counts@[m] == old_counts[om]);
                                    assert(views(old_ids)[om] == old_ids[om]@);
                                    assert(views(old_ids).contains(old_ids[om]@));
                                } else {
                                    assert(ids@[m] == *id);
                                }
                            }
                        }
                    },
                }
            },
            _ => {
                proof {
                    assert(module_identifier(modules@[i as int]) is None);
                }
            },
        }
        i = i + 1;
    }
    proof {
        assert(modules@.take(modules.len() as int) =~= modules@);
    }
    IdentifierCounts { identifiers: ids, counts }
}

/// Download counts by identifier.
pub struct DownloadCounts {
    pub identifiers: Vec<String>,
    pub counts: Vec<u64>,
}

/// Well-formed download counts: identifiers in strictly increasing order,
/// one count each.
pub open spec fn download_counts_wf(d: DownloadCounts) -> bool {
    &&& d.identifiers.len() == d.counts.len()
    &&& strictly_ordered::<String>(views(d.identifiers@))
}

/// The download count of an identifier.
pub open spec fn download_count_of(d: DownloadCounts, id: Seq<char>) -> Option<u64> {
    match key_position(d.identifiers@, id) {
        Some(k) => Some(d.counts@[k]),
        None => None,
    }
}

} // verus!

verus! {

// ---------------------------------------------------------------------------
// Relationship options
// ---------------------------------------------------------------------------

/// The pieces that are not blank, trimmed.
pub open spec fn trimmed_pieces(pieces: Seq<Seq<char>>) -> Seq<Seq<char>>
    decreases pieces.len(),
{
    if pieces.len() == 0 {
        Seq::empty()
    } else {
        let rest = trimmed_pieces(pieces.drop_last());
        let t = trim_spec(pieces.last());
        if t.len() > 0 {
            rest.push(t)
        } else {
            rest
        }
    }
}

/// The alternatives of one relationship name such as `A|B`: its `|`
/// separated pieces, trimmed, without blank ones.
pub open spec fn name_options(name: Seq<char>) -> Seq<Seq<char>> {
    trimmed_pieces(split_spec(name, '|'))
}

/// The alternatives of all relationship names, in order.
pub open spec fn relationship_options(names: Seq<Seq<char>>) -> Seq<Seq<char>>
    decreases names.len(),
{
    if names.len() == 0 {
        Seq::empty()
    } else {
        relationship_options(names.drop_last()) + name_options(names.last())
    }
}

/// The alternatives of one relationship name.
pub fn name_options_exec(name: &str) -> (r: Vec<String>)
    ensures
        views(r@) == name_options(name@),
{
    let pieces = split_char(name, '|');
    let ghost sp = split_spec(name@, '|');
    let mut out: Vec<String> = Vec::new();
    let mut i: usize = 0;
    while i < pieces.len()
        invariant
            i <= pieces.len(),
            pieces.len() == sp.len(),
            forall|k: int| 0 <= k < pieces.len() ==> #[trigger] pieces@[k]@ == sp[k],
            views(out@) == trimmed_pieces(sp.take(i as int)),
        decreases pieces.len() - i,
    {
        let t = trim(pieces[i].as_str());
        proof {
            assert(sp.take(i + 1).drop_last() =~= sp.take(i as int));
            assert(sp.take(i + 1).last() == pieces@[i as int]@);
        }
        let ghost before = out@;
        if !t.as_str().is_empty() {
            out.push(t);
            assert(views(out@) =~= views(before).push(t@));
        }
        i = i + 1;
    }
    assert(sp.take(pieces.len() as int) =~= sp);
    out
}

/// The alternatives of all relationship names, each once, sorted.
pub fn split_relationship_options(names: &Vec<String>) -> (r: Vec<String>)
    ensures
        strictly_sorted(views(r@)),
        views(r@).to_set() == relationship_options(views(names@)).to_set(),
{
    let mut all: Vec<String> = Vec::new();
    let mut i: usize = 0;
    while i < names.len()
        invariant
            i <= names.len(),
            views(all@) == relationship_options(views(names@).take(i as int)),
        decreases names.len() - i,
    {
        let mut pieces = name_options_exec(names[i].as_str());
        let ghost before = all@;
        let ghost add = pieces@;
        all.append(&mut pieces);
        proof {
            let t = views(names@).take(i + 1);
            assert(t.drop_last() =~= views(names@).take(i as int));
            assert(t.last() == names@[i as int]@);
            assert(views(all@) =~= views(before) + views(add));
        }
        i = i + 1;
    }
    assert(views(names@).take(names.len() as int) =~= views(names@));
    sort_dedup_strings(all)
}

// ---------------------------------------------------------------------------
// Catalog modules
// ---------------------------------------------------------------------------

/// The identifier of a module, trimmed, when it is not blank.
pub open spec fn trimmed_identifier(m: ParsedModule) -> Option<Seq<char>> {
    match m.identifier {
        Some(id) => if trim_spec(id@).len() > 0 {
            Some(trim_spec(id@))
        } else {
            None
        },
        None => None,
    }
}

/// A module's display name: its name when not blank, else its identifier.
pub open spec fn display_name(name: Option<String>, id: Seq<char>) -> Seq<char> {
    match name {
        Some(n) => if trim_spec(n@).len() > 0 {
            n@
        } else {
            id
        },
        None => id,
    }
}

/// The latest path of an identifier at a tolerance.
pub open spec fn latest_slot(latest: LatestPaths, id: Seq<char>, tolerance: nat) -> Option<Seq<char>> {
    match key_position(latest.identifiers@, id) {
        Some(k) => if tolerance == 0 {
            opt_view(latest.paths@[k].stable)
        } else if tolerance == 1 {
            opt_view(latest.paths@[k].testing)
        } else {
            opt_view(latest.paths@[k].development)
        },
        None => None,
    }
}

/// Whether the module at `path` is the latest of its identifier at a tolerance.
pub open spec fn is_latest_at(latest: LatestPaths, id: Seq<char>, path: Seq<char>, tolerance: nat) -> bool {
    latest_slot(latest, id, tolerance) == Some(path)
}

/// The number of versions recorded for an identifier, 1 when none is.
pub open spec fn version_count_of(counts: IdentifierCounts, id: Seq<char>) -> usize {
    match key_position(counts.identifiers@, id) {
        Some(k) => counts.counts@[k],
        None => 1,
    }
}

/// `c` is the catalog record of module `m`.
pub open spec fn catalog_module_of(
    c: CatalogModule,
    m: ParsedModule,
    counts: IdentifierCounts,
    latest: LatestPaths,
    downloads: DownloadCounts,
) -> bool {
    let id = trimmed_identifier(m)->0;
    &&& trimmed_identifier(m) is Some
    &&& c.path@ == m.path@
    &&& c.identifier@ == id
    &&& c.name@ == display_name(m.name, id)
    &&& opt_view(c.version) == opt_view(m.version)
    &&& opt_view(c.spec_version) == opt_view(m.spec_version)
    &&& opt_view(c.abstract_text) == opt_view(m.abstract_text)
    &&& opt_view(c.description) == opt_view(m.description)
    &&& views(c.authors@) == views(m.authors@)
    &&& views(c.licenses@) == views(m.licenses@)
    &&& opt_view(c.kind) == opt_view(m.kind)
    &&& c.release_status@ == m.release_status@
    &&& opt_view(c.release_date) == opt_view(m.release_date)
    &&& c.download_size == m.download_size
    &&& c.download_count == download_count_of(downloads, id)
    &&& opt_view(c.ksp_version) == opt_view(m.ksp_version)
    &&& opt_view(c.ksp_version_min) == opt_view(m.ksp_version_min)
    &&& opt_view(c.ksp_version_max) == opt_view(m.ksp_version_max)
    &&& options_of(c.dependency_names@, m.dependency_names@)
    &&& options_of(c.recommendation_names@, m.recommendation_names@)
    &&& options_of(c.suggestion_names@, m.suggestion_names@)
    &&& options_of(c.conflict_names@, m.conflict_names@)
    &&& options_of(c.provided_names@, m.provided_names@)
    &&& c.version_count == version_count_of(counts, id)
    &&& c.is_latest == is_latest_at(latest, id, m.path@, 2)
    &&& c.is_latest_stable == is_latest_at(latest, id, m.path@, 0)
    &&& c.is_latest_testing == is_latest_at(latest, id, m.path@, 1)
    &&& c.is_latest_development == is_latest_at(latest, id, m.path@, 2)
}

/// `options` is the sorted set of alternatives of `names`.
pub open spec fn options_of(options: Seq<String>, names: Seq<String>) -> bool {
    &&& strictly_sorted(views(options))
    &&& views(options).to_set() == relationship_options(views(names)).to_set()
}

fn latest_flag(latest: &LatestPaths, id: &String, path: &String, tolerance: usize) -> (r: bool)
    requires
        latest.identifiers.len() == latest.paths.len(),
        strictly_ordered::<String>(views(latest.identifiers@)),
    ensures
        r == is_latest_at(*latest, id@, path@, tolerance as nat),
{
    match find_text(&latest.identifiers, id) {
        Some(k) => {
            let p = &latest.paths[k];
            let slot = if tolerance == 0 {
                &p.stable
            } else if tolerance == 1 {
                &p.testing
            } else {
                &p.development
            };
            opt_text_is(slot, path.as_str())
        },
        None => false,
    }
}

/// The display name of a module.
pub fn module_display_name(name: &Option<String>, id: &String) -> (r: String)
    ensures
        r@ == display_name(*name, id@),
{
    match name {
        Some(n) => {
            if crate::text::is_blank(n.as_str()) {
                id.clone()
            } else {
                n.clone()
            }
        },
        None => id.clone(),
    }
}

/// The catalog record of a module; none when its identifier is missing or blank.
pub fn catalog_module(
    module: &ParsedModule,
    version_counts: &IdentifierCounts,
    latest_paths: &LatestPaths,
    download_counts: &DownloadCounts,
) -> (r: Option<CatalogModule>)
    requires
        identifier_counts_wf(*version_counts),
        latest_paths.identifiers.len() == latest_paths.paths.len(),
        strictly_ordered::<String>(views(latest_paths.identifiers@)),
        download_counts_wf(*download_counts),
    ensures
        r is Some <==> trimmed_identifier(*module) is Some,
        r matches Some(c) ==> catalog_module_of(c, *module, *version_counts, *latest_paths, *download_counts),
{
    let identifier = match &module.identifier {
        Some(id) => trim(id.as_str()),
        None => return None,
    };
    if identifier.as_str().is_empty() {
        return None;
    }
    let name = module_display_name(&module.name, &identifier);
    let download_count = match find_text(&download_counts.identifiers, &identifier) {
        Some(k) => Some(download_counts.counts[k]),
        None => None,
    };
    let version_count = match find_text(&version_counts.identifiers, &identifier) {
        Some(k) => version_counts.counts[k],
        None => 1,
    };
    Some(
        CatalogModule {
            path: module.path.clone(),
            name,
            version: module.version.clone(),
            spec_version: module.spec_version.clone(),
            abstract_text: module.abstract_text.clone(),
            description: module.description.clone(),
            authors: crate::model::copy_texts(&module.authors),
            licenses: crate::model::copy_texts(&module.licenses),
            kind: module.kind.clone(),
            release_status: module.release_status.clone(),
            release_date: module.release_date.clone(),
            download_size: module.download_size,
            download_count,
            ksp_version: module.ksp_version.clone(),
            ksp_version_min: module.ksp_version_min.clone(),
            ksp_version_max: module.ksp_version_max.clone(),
            dependency_names: split_relationship_options(&module.dependency_names),
            recommendation_names: split_relationship_options(&module.recommendation_names),
            suggestion_names: split_relationship_options(&module.suggestion_names),
            conflict_names: split_relationship_options(&module.conflict_names),
            provided_names: split_relationship_options(&module.provided_names),
            version_count,
            is_latest: latest_flag(latest_paths, &identifier, &module.path, 2),
            is_latest_stable: latest_flag(latest_paths, &identifier, &module.path, 0),
            is_latest_testing: latest_flag(latest_paths, &identifier, &module.path, 1),
            is_latest_development: latest_flag(latest_paths, &identifier, &module.path, 2),
            identifier,
        },
    )
}

/// Well-formed identifier counts.
pub open spec fn identifier_counts_wf(c: IdentifierCounts) -> bool {
    &&& c.identifiers.len() == c.counts.len()
    &&& strictly_ordered::<String>(views(c.identifiers@))
}

} // verus!

verus! {

// ---------------------------------------------------------------------------
// Catalog relations and providers
// ---------------------------------------------------------------------------

/// A relation edge: relationship, source identifier, source name, source
/// version, target, and the relationship name it came from.
pub type RelationView = (Seq<char>, Seq<char>, Seq<char>, Option<Seq<char>>, Seq<char>, Seq<char>);

pub open spec fn relation_view(r: CatalogRelation) -> RelationView {
    (r.relationship@, r.source_identifier@, r.source_name@, opt_view(r.source_version), r.target@, r.raw_target@)
}

pub open spec fn relation_views(rs: Seq<CatalogRelation>) -> Seq<RelationView> {
    rs.map_values(|r: CatalogRelation| relation_view(r))
}

/// One edge per alternative of each relationship name, in order.
pub open spec fn edges_spec(
    relationship: Seq<char>,
    id: Seq<char>,
    name: Seq<char>,
    version: Option<Seq<char>>,
    names: Seq<Seq<char>>,
) -> Seq<RelationView>
    decreases names.len(),
{
    if names.len() == 0 {
        Seq::empty()
    } else {
        let raw = names.last();
        edges_spec(relationship, id, name, version, names.drop_last()) + name_options(raw).map_values(
            |t: Seq<char>| (relationship, id, name, version, t, raw),
        )
    }
}

/// The relation edges of a module: its dependencies, recommendations,
/// suggestions and conflicts. Modules without an identifier have none.
pub open spec fn module_relations_spec(m: ParsedModule) -> Seq<RelationView> {
    match trimmed_identifier(m) {
        Some(id) => {
            let name = display_name(m.name, id);
            let version = opt_view(m.version);
            edges_spec("depends"@, id, name, version, views(m.dependency_names@)) + edges_spec(
                "recommends"@,
                id,
                name,
                version,
                views(m.recommendation_names@),
            ) + edges_spec("suggests"@, id, name, version, views(m.suggestion_names@))
                + edges_spec("conflicts"@, id, name, version, views(m.conflict_names@))
        },
        None => Seq::empty(),
    }
}

fn append_catalog_relations(
    relations: &mut Vec<CatalogRelation>,
    source_identifier: &String,
    source_name: &String,
    source_version: &Option<String>,
    relationship: &str,
    targets: &Vec<String>,
)
    ensures
        relation_views(final(relations)@) == relation_views(old(relations)@) + edges_spec(
            relationship@,
            source_identifier@,
            source_name@,
            opt_view(*source_version),
            views(targets@),
        ),
{
    let ghost start = relation_views(relations@);
    let mut i: usize = 0;
    while i < targets.len()
        invariant
            i <= targets.len(),
            relation_views(relations@) == start + edges_spec(
                relationship@,
                source_identifier@,
                source_name@,
                opt_view(*source_version),
                views(targets@).take(i as int),
            ),
        decreases targets.len() - i,
    {
        let options = name_options_exec(targets[i].as_str());
        let ghost mid = relation_views(relations@);
        let ghost raw = targets@[i as int]@;
        let mut k: usize = 0;
        while k < options.len()
            invariant
                k <= options.len(),
                i < targets.len(),
                raw == targets@[i as int]@,
                views(options@) == name_options(raw),
                relation_views(relations@) == mid + views(options@).take(k as int).map_values(
                    |t: Seq<char>|
                        (relationship@, source_identifier@, source_name@, opt_view(*source_version), t, raw),
                ),
            decreases options.len() - k,
        {
            let ghost before = relations@;
            let r = CatalogRelation {
                relationship: crate::text::text_copy(relationship),
                source_identifier: source_identifier.clone(),
                source_name: source_name.clone(),
                source_version: source_version.clone(),
                target: options[k].clone(),
                raw_target: targets[i].clone(),
            };
            relations.push(r);
            proof {
                assert(relation_views(relations@) =~= relation_views(before).push(relation_view(r)));
                assert(views(options@).take(k + 1) =~= views(options@).take(k as int).push(options@[k as int]@));
                assert(views(options@).take(k + 1).map_values(
                    |t: Seq<char>|
                        (relationship@, source_identifier@, source_name@, opt_view(*source_version), t, raw),
                ) =~= views(options@).take(k as int).map_values(
                    |t: Seq<char>|
                        (relationship@, source_identifier@, source_name@, opt_view(*source_version), t, raw),
                ).push(relation_view(r)));
            }
            k = k + 1;
        }
        proof {
            assert(views(options@).take(options.len() as int) =~= views(options@));
            let t = views(targets@).take(i + 1);
            assert(t.drop_last() =~= views(targets@).take(i as int));
            assert(t.last() == raw);
        }
        i = i + 1;
    }
    assert(views(targets@).take(targets.len() as int) =~= views(targets@));
}

/// The relation edges of a parsed module.
pub fn catalog_relations_from_parsed(module: &ParsedModule) -> (r: Vec<CatalogRelation>)
    ensures
        relation_views(r@) == module_relations_spec(*module),
{
    let identifier = match &module.identifier {
        Some(id) => trim(id.as_str()),
        None => {
            let r: Vec<CatalogRelation> = Vec::new();
            assert(relation_views(r@) =~= Seq::<RelationView>::empty());
            return r;
        },
    };
    if identifier.as_str().is_empty() {
        let r: Vec<CatalogRelation> = Vec::new();
        assert(relation_views(r@) =~= Seq::<RelationView>::empty());
        return r;
    }
    let source_name = module_display_name(&module.name, &identifier);
    let mut relations: Vec<CatalogRelation> = Vec::new();
    assert(relation_views(relations@) =~= Seq::<RelationView>::empty());
    append_catalog_relations(&mut relations, &identifier, &source_name, &module.version, "depends", &module.dependency_names);
    append_catalog_relations(&mut relations, &identifier, &source_name, &module.version, "recommends", &module.recommendation_names);
    append_catalog_relations(&mut relations, &identifier, &source_name, &module.version, "suggests", &module.suggestion_names);
    append_catalog_relations(&mut relations, &identifier, &source_name, &module.version, "conflicts", &module.conflict_names);
    relations
}

/// A provider record: the provided name, and the providing module's
/// identifier, name and version.
pub type ProviderView = (Seq<char>, Seq<char>, Seq<char>, Option<Seq<char>>);

pub open spec fn provider_views(ps: Seq<CatalogProvider>) -> Seq<ProviderView> {
    ps.map_values(|p: CatalogProvider| (p.provided@, p.identifier@, p.name@, opt_view(p.version)))
}

/// One provider record per name a catalog module provides.
pub open spec fn module_providers_spec(c: CatalogModule) -> Seq<ProviderView> {
    views(c.provided_names@).map_values(|p: Seq<char>| (p, c.identifier@, c.name@, opt_view(c.version)))
}

pub fn catalog_providers(module: &CatalogModule) -> (r: Vec<CatalogProvider>)
    ensures
        provider_views(r@) == module_providers_spec(*module),
{
    let mut out: Vec<CatalogProvider> = Vec::new();
    let mut i: usize = 0;
    while i < module.provided_names.len()
        invariant
            i <= module.provided_names.len(),
            provider_views(out@) == module_providers_spec(*module).take(i as int),
        decreases module.provided_names.len() - i,
    {
        let ghost before = out@;
        let p = CatalogProvider {
            provided: module.provided_names[i].clone(),
            identifier: module.identifier.clone(),
            name: module.name.clone(),
            version: module.version.clone(),
        };
        out.push(p);
        proof {
            assert(provider_views(out@) =~= provider_views(before).push(
                (p.provided@, p.identifier@, p.name@, opt_view(p.version)),
            ));
            assert(views(module.provided_names@)[i as int] == module.provided_names@[i as int]@);
            assert(module_providers_spec(*module).take(i + 1) =~= module_providers_spec(*module).take(
                i as int,
            ).push(module_providers_spec(*module)[i as int]));
        }
        i = i + 1;
    }
    assert(module_providers_spec(*module).take(module.provided_names.len() as int) =~= module_providers_spec(*module));
    out
}

} // verus!

verus! {

// ---------------------------------------------------------------------------
// The catalog index
// ---------------------------------------------------------------------------

/// Whether the module at `path` is the latest of identifier `id` at a tolerance.
pub open spec fn latest_flag_spec(modules: Seq<ParsedModule>, id: Seq<char>, path: Seq<char>, tolerance: nat) -> bool {
    path_at(modules, latest_index(modules, id, tolerance)) == Some(path)
}

/// Whether a module is the latest of its identifier at some tolerance.
pub open spec fn latest_for_any_stability(modules: Seq<ParsedModule>, m: ParsedModule) -> bool {
    match module_identifier(m) {
        Some(id) => latest_flag_spec(modules, id, m.path@, 0) || latest_flag_spec(
            modules,
            id,
            m.path@,
            1,
        ) || latest_flag_spec(modules, id, m.path@, 2),
        None => false,
    }
}

/// The number of versions of an identifier, 1 for an unknown one.
pub open spec fn version_count_spec(modules: Seq<ParsedModule>, id: Seq<char>) -> nat {
    if has_identifier(modules, id) {
        identifier_count(modules, id)
    } else {
        1
    }
}

/// `c` is the catalog record of module `m` among `modules`.
pub open spec fn catalog_entry_of(
    c: CatalogModule,
    m: ParsedModule,
    modules: Seq<ParsedModule>,
    downloads: DownloadCounts,
) -> bool {
    let id = trimmed_identifier(m)->0;
    &&& trimmed_identifier(m) is Some
    &&& c.path@ == m.path@
    &&& c.identifier@ == id
    &&& c.name@ == display_name(m.name, id)
    &&& opt_view(c.version) == opt_view(m.version)
    &&& opt_view(c.spec_version) == opt_view(m.spec_version)
    &&& opt_view(c.abstract_text) == opt_view(m.abstract_text)
    &&& opt_view(c.description) == opt_view(m.description)
    &&& views(c.authors@) == views(m.authors@)
    &&& views(c.licenses@) == views(m.licenses@)
    &&& opt_view(c.kind) == opt_view(m.kind)
    &&& c.release_status@ == m.release_status@
    &&& opt_view(c.release_date) == opt_view(m.release_date)
    &&& c.download_size == m.download_size
    &&& c.download_count == download_count_of(downloads, id)
    &&& opt_view(c.ksp_version) == opt_view(m.ksp_version)
    &&& opt_view(c.ksp_version_min) == opt_view(m.ksp_version_min)
    &&& opt_view(c.ksp_version_max) == opt_view(m.ksp_version_max)
    &&& options_of(c.dependency_names@, m.dependency_names@)
    &&& options_of(c.recommendation_names@, m.recommendation_names@)
    &&& options_of(c.suggestion_names@, m.suggestion_names@)
    &&& options_of(c.conflict_names@, m.conflict_names@)
    &&& options_of(c.provided_names@, m.provided_names@)
    &&& c.version_count == version_count_spec(modules, id)
    &&& c.is_latest == latest_flag_spec(modules, id, m.path@, 2)
    &&& c.is_latest_stable == latest_flag_spec(modules, id, m.path@, 0)
    &&& c.is_latest_testing == latest_flag_spec(modules, id, m.path@, 1)
    &&& c.is_latest_development == latest_flag_spec(modules, id, m.path@, 2)
}

/// Whether a module goes into the catalog: always, or only when it is the
/// latest at some tolerance.
pub open spec fn included(modules: Seq<ParsedModule>, m: ParsedModule, latest_only: bool) -> bool {
    !latest_only || latest_for_any_stability(modules, m)
}

/// The positions of the modules that become catalog records, in order.
pub open spec fn catalog_sources(all: Seq<ParsedModule>, prefix: Seq<ParsedModule>, latest_only: bool) -> Seq<int>
    decreases prefix.len(),
{
    if prefix.len() == 0 {
        Seq::empty()
    } else {
        let rest = catalog_sources(all, prefix.drop_last(), latest_only);
        let m = prefix.last();
        if included(all, m, latest_only) && trimmed_identifier(m) is Some {
            rest.push(prefix.len() - 1)
        } else {
            rest
        }
    }
}

/// The relation edges of the included modules, in order.
pub open spec fn catalog_relations_spec(all: Seq<ParsedModule>, prefix: Seq<ParsedModule>, latest_only: bool) -> Seq<RelationView>
    decreases prefix.len(),
{
    if prefix.len() == 0 {
        Seq::empty()
    } else {
        let rest = catalog_relations_spec(all, prefix.drop_last(), latest_only);
        let m = prefix.last();
        if included(all, m, latest_only) {
            rest + module_relations_spec(m)
        } else {
            rest
        }
    }
}

/// The provider records of the catalog modules, in order.
pub open spec fn catalog_providers_spec(cms: Seq<CatalogModule>) -> Seq<ProviderView>
    decreases cms.len(),
{
    if cms.len() == 0 {
        Seq::empty()
    } else {
        catalog_providers_spec(cms.drop_last()) + module_providers_spec(cms.last())
    }
}

/// `cms` are the catalog records of the included modules, in order.
pub open spec fn catalog_records_of(
    cms: Seq<CatalogModule>,
    modules: Seq<ParsedModule>,
    latest_only: bool,
    downloads: DownloadCounts,
) -> bool {
    &&& cms.len() == catalog_sources(modules, modules, latest_only).len()
    &&& forall|k: int|
        0 <= k < cms.len() ==> catalog_entry_of(
            #[trigger] cms[k],
            modules[catalog_sources(modules, modules, latest_only)[k]],
            modules,
            downloads,
        )
}

/// The identifiers that some module carries.
pub open spec fn identifier_set(modules: Seq<ParsedModule>) -> Set<Seq<char>> {
    Set::new(|id: Seq<char>| has_identifier(modules, id))
}

/// The latest paths structure answers as the latest positions do.
proof fn lemma_latest_lookup(latest: LatestPaths, modules: Seq<ParsedModule>, id: Seq<char>, path: Seq<char>)
    requires
        latest_paths_of(latest, modules),
    ensures
        is_latest_at(latest, id, path, 0) == latest_flag_spec(modules, id, path, 0),
        is_latest_at(latest, id, path, 1) == latest_flag_spec(modules, id, path, 1),
        is_latest_at(latest, id, path, 2) == latest_flag_spec(modules, id, path, 2),
{
    if has_identifier(modules, id) {
        assert(views(latest.identifiers@).contains(id));
        let k = choose|k: int| 0 <= k < views(latest.identifiers@).len() && views(latest.identifiers@)[k] == id;
        assert(latest.identifiers@[k]@ == id);
        crate::keymap::lemma_key_position_unique(latest.identifiers@, id, k);
    } else {
        lemma_latest_none(modules, id, 0);
        lemma_latest_none(modules, id, 1);
        lemma_latest_none(modules, id, 2);
        assert forall|k: int| 0 <= k < latest.identifiers.len() implies #[trigger] latest.identifiers@[k]@ != id by {
            assert(views(latest.identifiers@)[k] == latest.identifiers@[k]@);
        }
    }
}

proof fn lemma_count_lookup(counts: IdentifierCounts, modules: Seq<ParsedModule>, id: Seq<char>)
    requires
        identifier_counts_of(counts, modules),
    ensures
        version_count_of(counts, id) as nat == version_count_spec(modules, id),
{
    if has_identifier(modules, id) {
        assert(views(counts.identifiers@).contains(id));
        let k = choose|k: int| 0 <= k < views(counts.identifiers@).len() && views(counts.identifiers@)[k] == id;
        assert(counts.identifiers@[k]@ == id);
        crate::keymap::lemma_key_position_unique(counts.identifiers@, id, k);
    } else {
        assert forall|k: int| 0 <= k < counts.identifiers.len() implies #[trigger] counts.identifiers@[k]@ != id by {
            assert(views(counts.identifiers@)[k] == counts.identifiers@[k]@);
        }
    }
}

/// Whether a parsed module is the latest of its identifier at some tolerance.
pub fn module_is_latest_for_any_stability(module: &ParsedModule, latest_paths: &LatestPaths) -> (r: bool)
    requires
        latest_paths.identifiers.len() == latest_paths.paths.len(),
        strictly_ordered::<String>(views(latest_paths.identifiers@)),
    ensures
        r == match module_identifier(*module) {
            Some(id) => is_latest_at(*latest_paths, id, module.path@, 0) || is_latest_at(*latest_paths, id, module.path@, 1)
                || is_latest_at(*latest_paths, id, module.path@, 2),
            None => false,
        },
{
    let identifier = match &module.identifier {
        Some(id) => id,
        None => return false,
    };
    if identifier.as_str().is_empty() {
        return false;
    }
    match find_text(&latest_paths.identifiers, identifier) {
        Some(k) => latest_paths.paths[k].contains(module.path.as_str()),
        None => false,
    }
}

/// The name this library reports as the catalog's generator.
pub open spec fn generator_name() -> Seq<char> {
    "ckan-meta-rs"@
}

/// Builds the catalog sidecar from parsed modules: one record per module
/// with an identifier (only the latest per stability when `latest_only`),
/// the relation edges of the same modules, and the provided names.
pub fn build_catalog_index(
    parsed: ArchiveParse,
    latest_only: bool,
    source_fingerprint: Option<String>,
) -> (r: CatalogIndex)
    requires
        download_counts_wf(parsed.download_counts),
    ensures
        r.schema_version == 2,
        r.source@ == parsed.report.archive@,
        opt_view(r.source_fingerprint) == opt_view(source_fingerprint),
        r.generated_by@ == generator_name(),
        r.report.parsed_modules == parsed.report.parsed_modules,
        r.report.unique_identifiers == parsed.report.unique_identifiers,
        r.report.latest_modules == identifier_set(parsed.modules@).len(),
        r.report.dependency_edges == parsed.report.dependency_edges,
        r.report.recommendation_edges == parsed.report.recommendation_edges,
        r.report.suggestion_edges == parsed.report.suggestion_edges,
        r.report.conflict_edges == parsed.report.conflict_edges,
        r.report.provided_identifiers == parsed.report.provided_identifiers,
        r.report.parse_errors == parsed.report.parse_errors,
        r.report.read_ms == parsed.report.read_ms,
        r.report.parse_ms == parsed.report.parse_ms,
        r.report.elapsed_ms == parsed.report.elapsed_ms,
        catalog_records_of(r.modules@, parsed.modules@, latest_only, parsed.download_counts),
        relation_views(r.relations@) == catalog_relations_spec(parsed.modules@, parsed.modules@, latest_only),
        provider_views(r.providers@) == catalog_providers_spec(r.modules@),
{
    let modules = &parsed.modules;
    let ghost all = modules@;
    let version_counts = version_counts_by_identifier(modules.as_slice());
    let latest_paths = latest_paths_by_stability(modules.as_slice());
    let mut catalog_modules: Vec<CatalogModule> = Vec::new();
    let mut relations: Vec<CatalogRelation> = Vec::new();
    let mut i: usize = 0;
    while i < modules.len()
        invariant
            all == modules@,
            i <= modules.len(),
            identifier_counts_of(version_counts, all),
            latest_paths_of(latest_paths, all),
            download_counts_wf(parsed.download_counts),
            catalog_modules.len() == catalog_sources(all, all.take(i as int), latest_only).len(),
            forall|k: int| 0 <= k < catalog_sources(all, all.take(i as int), latest_only).len()
                ==> 0 <= #[trigger] catalog_sources(all, all.take(i as int), latest_only)[k] < i,
            forall|k: int|
                0 <= k < catalog_modules.len() ==> catalog_entry_of(
                    #[trigger] catalog_modules@[k],
                    all[catalog_sources(all, all.take(i as int), latest_only)[k]],
                    all,
                    parsed.download_counts,
                ),
            relation_views(relations@) == catalog_relations_spec(all, all.take(i as int), latest_only),
        decreases modules.len() - i,
    {
        let module = &modules[i];
        let ghost prefix = all.take(i as int);
        let ghost next = all.take(i + 1);
        proof {
            assert(next.drop_last() =~= prefix);
            assert(next.last() == all[i as int]);
            lemma_latest_lookup(latest_paths, all, module_identifier(*module)->0, module.path@);
        }
        let take = !latest_only || module_is_latest_for_any_stability(module, &latest_paths);
        proof {
            assert(take == included(all, *module, latest_only));
        }
        if take {
            let ghost before_modules = catalog_modules@;
            match catalog_module(module, &version_counts, &latest_paths, &parsed.download_counts) {
                Some(c) => {
                    proof {
                        let id = trimmed_identifier(*module)->0;
                        lemma_latest_lookup(latest_paths, all, id, module.path@);
                        lemma_count_lookup(version_counts, all, id);
                    }
                    catalog_modules.push(c);
                    proof {
                        assert forall|k: int| 0 <= k < catalog_modules.len() implies catalog_entry_of(
                            #[trigger] catalog_modules@[k],
                            all[catalog_sources(all, next, latest_only)[k]],
                            all,
                            parsed.download_counts,
                        ) by {
                            if k < before_modules.len() {
                                assert(catalog_modules@[k] == before_modules[k]);
                            }
                        }
                    }
                },
                None => {},
            }
            let mut module_relations = catalog_relations_from_parsed(module);
            let ghost before = relations@;
            let ghost added = module_relations@;
            relations.append(&mut module_relations);
            proof {
                assert(relation_views(relations@) =~= relation_views(before) + relation_views(added));
            }
        }
        i = i + 1;
    }
    proof {
        assert(all.take(modules.len() as int) =~= all);
    }
    let mut providers: Vec<CatalogProvider> = Vec::new();
    let mut k: usize = 0;
    while k < catalog_modules.len()
        invariant
            k <= catalog_modules.len(),
            provider_views(providers@) == catalog_providers_spec(catalog_modules@.take(k as int)),
        decreases catalog_modules.len() - k,
    {
        let mut ps = catalog_providers(&catalog_modules[k]);
        let ghost before = providers@;
        let ghost added = ps@;
        providers.append(&mut ps);
        proof {
            assert(provider_views(providers@) =~= provider_views(before) + provider_views(added));
            assert(catalog_modules@.take(k + 1).drop_last() =~= catalog_modules@.take(k as int));
            assert(catalog_modules@.take(k + 1).last() == catalog_modules@[k as int]);
        }
        k = k + 1;
    }
    proof {
        assert(catalog_modules@.take(catalog_modules.len() as int) =~= catalog_modules@);
        // the identifiers of the latest paths are the identifier set
        let ids = views(latest_paths.identifiers@);
        assert(ids.no_duplicates()) by {
            assert forall|a: int, b: int| 0 <= a < ids.len() && 0 <= b < ids.len() && a != b implies ids[a] != ids[b] by {
                if a < b {
                    assert(key_lt::<String>(ids[a], ids[b]));
                } else {
                    assert(key_lt::<String>(ids[b], ids[a]));
                }
            }
        }
        ids.unique_seq_to_set();
        assert(ids.to_set() =~= identifier_set(all));
    }
    CatalogIndex {
        schema_version: 2,
        source: parsed.report.archive.clone(),
        source_fingerprint,
        generated_by: crate::text::text_copy("ckan-meta-rs"),
        report: CatalogIndexReport {
            parsed_modules: parsed.report.parsed_modules,
            unique_identifiers: parsed.report.unique_identifiers,
            latest_modules: latest_paths.identifiers.len(),
            dependency_edges: parsed.report.dependency_edges,
            recommendation_edges: parsed.report.recommendation_edges,
            suggestion_edges: parsed.report.suggestion_edges,
            conflict_edges: parsed.report.conflict_edges,
            provided_identifiers: parsed.report.provided_identifiers,
            parse_errors: parsed.report.parse_errors,
            read_ms: parsed.report.read_ms,
            parse_ms: parsed.report.parse_ms,
            elapsed_ms: parsed.report.elapsed_ms,
        },
        modules: catalog_modules,
        relations,
        providers,
    }
}

} // verus!
