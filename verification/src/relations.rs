//! Finding the modules that point at a target through their relationships.

use vstd::prelude::*;

use crate::model::{summarizes, ModuleSummary, ParsedModule, RelationMatch};
use crate::order::views;
use crate::text::{eq_ignore_ascii_case, eq_ignore_ascii_case_spec, split_char, split_spec, text_copy,
    text_eq};

verus! {

/// A relation match as specifications see it: the relationship, the
/// relation name that matched, and the module that has it.
pub type MatchSpec = (Seq<char>, Seq<char>, ParsedModule);

/// `m` is the match that `s` describes.
pub open spec fn match_agrees(m: RelationMatch, s: MatchSpec) -> bool {
    m.relationship@ == s.0 && m.target@ == s.1 && summarizes(m.module, s.2)
}

pub open spec fn matches_agree(ms: Seq<RelationMatch>, specs: Seq<MatchSpec>) -> bool {
    ms.len() == specs.len() && forall|k: int| 0 <= k < ms.len() ==> match_agrees(#[trigger] ms[k], specs[k])
}

/// A relation name matches when one of its `|` alternatives equals one of
/// the targets, ignoring ASCII case.
pub open spec fn name_matches(name: Seq<char>, targets: Seq<Seq<char>>) -> bool {
    exists|t: int, p: int|
        0 <= t < targets.len() && 0 <= p < split_spec(name, '|').len() && eq_ignore_ascii_case_spec(
            #[trigger] split_spec(name, '|')[p],
            #[trigger] targets[t],
        )
}

/// Whether the list already has a match of the relationship, name and path.
pub open spec fn has_match(acc: Seq<MatchSpec>, rel: Seq<char>, name: Seq<char>, path: Seq<char>) -> bool {
    exists|k: int| 0 <= k < acc.len() && (#[trigger] acc[k]).0 == rel && acc[k].1 == name && acc[k].2.path@ == path
}

/// The matches after looking at the relation names of module `m`: each
/// matching name not yet listed for that relationship and path is added.
pub open spec fn collected(
    acc: Seq<MatchSpec>,
    rel: Seq<char>,
    targets: Seq<Seq<char>>,
    names: Seq<Seq<char>>,
    m: ParsedModule,
) -> Seq<MatchSpec>
    decreases names.len(),
{
    if names.len() == 0 {
        acc
    } else {
        let before = collected(acc, rel, targets, names.drop_last(), m);
        let name = names.last();
        if name_matches(name, targets) && !has_match(before, rel, name, m.path@) {
            before.push((rel, name, m))
        } else {
            before
        }
    }
}

/// Whether a relation name matches one of the targets.
fn relation_name_matches(name: &str, targets: &Vec<String>) -> (r: bool)
    ensures
        r == name_matches(name@, views(targets@)),
{
    let pieces = split_char(name, '|');
    let mut t: usize = 0;
    while t < targets.len()
        invariant
            t <= targets.len(),
            pieces.len() == split_spec(name@, '|').len(),
            forall|p: int| 0 <= p < pieces.len() ==> #[trigger] pieces@[p]@ == split_spec(name@, '|')[p],
            forall|u: int, p: int|
                0 <= u < t && 0 <= p < split_spec(name@, '|').len() ==> !eq_ignore_ascii_case_spec(
                    #[trigger] split_spec(name@, '|')[p],
                    #[trigger] views(targets@)[u],
                ),
        decreases targets.len() - t,
    {
        let mut p: usize = 0;
        while p < pieces.len()
            invariant
                t < targets.len(),
                p <= pieces.len(),
                pieces.len() == split_spec(name@, '|').len(),
                forall|q: int| 0 <= q < pieces.len() ==> #[trigger] pieces@[q]@ == split_spec(name@, '|')[q],
                forall|q: int| 0 <= q < p ==> !eq_ignore_ascii_case_spec(
                    #[trigger] split_spec(name@, '|')[q],
                    views(targets@)[t as int],
                ),
            decreases pieces.len() - p,
        {
            if eq_ignore_ascii_case(pieces[p].as_str(), targets[t].as_str()) {
                proof {
                    assert(eq_ignore_ascii_case_spec(
                        split_spec(name@, '|')[p as int],
                        views(targets@)[t as int],
                    ));
                }
                return true;
            }
            p = p + 1;
        }
        t = t + 1;
    }
    false
}

/// Whether the matches list one of the relationship, name and path.
pub open spec fn match_listed(ms: Seq<RelationMatch>, rel: Seq<char>, name: Seq<char>, path: Seq<char>) -> bool {
    exists|k: int|
        0 <= k < ms.len() && (#[trigger] ms[k]).relationship@ == rel && ms[k].target@ == name
            && ms[k].module.path@ == path
}

proof fn lemma_listed_agrees(ms: Seq<RelationMatch>, specs: Seq<MatchSpec>, rel: Seq<char>, name: Seq<char>, path: Seq<char>)
    requires
        matches_agree(ms, specs),
    ensures
        match_listed(ms, rel, name, path) == has_match(specs, rel, name, path),
{
    if match_listed(ms, rel, name, path) {
        let k = choose|k: int|
            0 <= k < ms.len() && (#[trigger] ms[k]).relationship@ == rel && ms[k].target@ == name
                && ms[k].module.path@ == path;
        assert(match_agrees(ms[k], specs[k]));
    }
    if has_match(specs, rel, name, path) {
        let k = choose|k: int| 0 <= k < specs.len() && (#[trigger] specs[k]).0 == rel && specs[k].1 == name && specs[k].2.path@ == path;
        assert(match_agrees(ms[k], specs[k]));
    }
}

/// Whether a match of the relationship, name and path is already listed.
fn already_matched(matches: &Vec<RelationMatch>, relationship: &str, name: &str, path: &str) -> (r: bool)
    ensures
        r == match_listed(matches@, relationship@, name@, path@),
{
    let mut k: usize = 0;
    while k < matches.len()
        invariant
            k <= matches.len(),
            forall|j: int| 0 <= j < k ==> !((#[trigger] matches@[j]).relationship@ == relationship@
                && matches@[j].target@ == name@ && matches@[j].module.path@ == path@),
        decreases matches.len() - k,
    {
        let m = &matches[k];
        if text_eq(m.relationship.as_str(), relationship) && text_eq(m.target.as_str(), name) && text_eq(
            m.module.path.as_str(),
            path,
        ) {
            return true;
        }
        k = k + 1;
    }
    false
}

/// Adds the matches of one relationship of a module: every relation name
/// with an alternative equal to a target (ignoring ASCII case) that is not
/// already listed for this relationship and module path. Whatever the
/// listed matches describe, the new list describes it with these added.
pub fn collect_relation_matches(
    matches: &mut Vec<RelationMatch>,
    relationship: &str,
    target_lowers: &Vec<String>,
    relation_names: &Vec<String>,
    module: &ParsedModule,
)
    ensures
        forall|specs: Seq<MatchSpec>|
            matches_agree(old(matches)@, specs) ==> #[trigger] matches_agree(
                final(matches)@,
                collected(specs, relationship@, views(target_lowers@), views(relation_names@), *module),
            ),
{
    let ghost start = matches@;
    let mut i: usize = 0;
    while i < relation_names.len()
        invariant
            i <= relation_names.len(),
            forall|specs: Seq<MatchSpec>|
                matches_agree(start, specs) ==> #[trigger] matches_agree(
                    matches@,
                    collected(specs, relationship@, views(target_lowers@), views(relation_names@).take(i as int), *module),
                ),
        decreases relation_names.len() - i,
    {
        let name = relation_names[i].as_str();
        proof {
            let t = views(relation_names@).take(i + 1);
            assert(t.drop_last() =~= views(relation_names@).take(i as int));
            assert(t.last() == name@);
        }
        let ghost before = matches@;
        let found = relation_name_matches(name, target_lowers);
        let listed = already_matched(matches, relationship, name, module.path.as_str());
        if found && !listed {
            matches.push(
                RelationMatch {
                    relationship: text_copy(relationship),
                    target: relation_names[i].clone(),
                    module: ModuleSummary::from(module),
                },
            );
        }
        proof {
            assert forall|specs: Seq<MatchSpec>| matches_agree(start, specs) implies #[trigger] matches_agree(
                matches@,
                collected(specs, relationship@, views(target_lowers@), views(relation_names@).take(i + 1), *module),
            ) by {
                let acc = collected(specs, relationship@, views(target_lowers@), views(relation_names@).take(i as int), *module);
                assert(matches_agree(before, acc));
                lemma_listed_agrees(before, acc, relationship@, name@, module.path@);
                if found && !listed {
                    let next = acc.push((relationship@, name@, *module));
                    assert forall|k: int| 0 <= k < matches.len() implies match_agrees(#[trigger] matches@[k], next[k]) by {
                        if k < before.len() {
                            assert(matches@[k] == before[k]);
                        }
                    }
                }
            }
        }
        i = i + 1;
    }
    proof {
        assert(views(relation_names@).take(relation_names.len() as int) =~= views(relation_names@));
    }
}

/// The matches after looking at all relationships of a module.
pub open spec fn module_collected(acc: Seq<MatchSpec>, targets: Seq<Seq<char>>, m: ParsedModule) -> Seq<MatchSpec> {
    let a = collected(acc, "depends"@, targets, views(m.dependency_names@), m);
    let b = collected(a, "recommends"@, targets, views(m.recommendation_names@), m);
    let c = collected(b, "suggests"@, targets, views(m.suggestion_names@), m);
    let d = collected(c, "conflicts"@, targets, views(m.conflict_names@), m);
    collected(d, "provides"@, targets, views(m.provided_names@), m)
}

/// Adds the matches of every relationship of a module.
pub fn collect_module_relation_matches(
    matches: &mut Vec<RelationMatch>,
    module: &ParsedModule,
    target_lowers: &Vec<String>,
)
    ensures
        forall|specs: Seq<MatchSpec>|
            matches_agree(old(matches)@, specs) ==> #[trigger] matches_agree(
                final(matches)@,
                module_collected(specs, views(target_lowers@), *module),
            ),
{
    let ghost m0 = matches@;
    collect_relation_matches(matches, "depends", target_lowers, &module.dependency_names, module);
    let ghost m1 = matches@;
    collect_relation_matches(matches, "recommends", target_lowers, &module.recommendation_names, module);
    let ghost m2 = matches@;
    collect_relation_matches(matches, "suggests", target_lowers, &module.suggestion_names, module);
    let ghost m3 = matches@;
    collect_relation_matches(matches, "conflicts", target_lowers, &module.conflict_names, module);
    let ghost m4 = matches@;
    collect_relation_matches(matches, "provides", target_lowers, &module.provided_names, module);
    proof {
        let t = views(target_lowers@);
        let m = *module;
        assert forall|specs: Seq<MatchSpec>| matches_agree(m0, specs) implies #[trigger] matches_agree(
            matches@,
            module_collected(specs, t, m),
        ) by {
            let a = collected(specs, "depends"@, t, views(m.dependency_names@), m);
            assert(matches_agree(m1, a));
            let b = collected(a, "recommends"@, t, views(m.recommendation_names@), m);
            assert(matches_agree(m2, b));
            let c = collected(b, "suggests"@, t, views(m.suggestion_names@), m);
            assert(matches_agree(m3, c));
            let d = collected(c, "conflicts"@, t, views(m.conflict_names@), m);
            assert(matches_agree(m4, d));
        }
    }
}

/// The matches found over all modules, in order.
pub open spec fn all_collected(modules: Seq<ParsedModule>, targets: Seq<Seq<char>>) -> Seq<MatchSpec>
    decreases modules.len(),
{
    if modules.len() == 0 {
        Seq::empty()
    } else {
        module_collected(all_collected(modules.drop_last(), targets), targets, modules.last())
    }
}

/// Collects the matches of the targets over all modules.
pub fn collect_all_relation_matches(modules: &Vec<ParsedModule>, target_lowers: &Vec<String>) -> (r: Vec<
    RelationMatch,
>)
    ensures
        matches_agree(r@, all_collected(modules@, views(target_lowers@))),
{
    let mut matches: Vec<RelationMatch> = Vec::new();
    let ghost mut specs: Seq<MatchSpec> = Seq::empty();
    let mut i: usize = 0;
    while i < modules.len()
        invariant
            i <= modules.len(),
            specs == all_collected(modules@.take(i as int), views(target_lowers@)),
            matches_agree(matches@, specs),
        decreases modules.len() - i,
    {
        proof {
            assert(modules@.take(i + 1).drop_last() =~= modules@.take(i as int));
            assert(modules@.take(i + 1).last() == modules@[i as int]);
        }
        let ghost before = matches@;
        collect_module_relation_matches(&mut matches, &modules[i], target_lowers);
        proof {
            assert(matches_agree(before, specs));
            specs = module_collected(specs, views(target_lowers@), modules@[i as int]);
        }
        i = i + 1;
    }
    proof {
        assert(modules@.take(modules.len() as int) =~= modules@);
    }
    matches
}

/// The keys by which matches are told apart.
pub open spec fn match_keys(specs: Seq<MatchSpec>) -> Seq<(Seq<char>, Seq<char>, Seq<char>)> {
    specs.map_values(|s: MatchSpec| (s.0, s.1, s.2.path@))
}

/// Collecting never lists a relationship, name and module path twice.
pub proof fn lemma_collected_distinct(
    acc: Seq<MatchSpec>,
    rel: Seq<char>,
    targets: Seq<Seq<char>>,
    names: Seq<Seq<char>>,
    m: ParsedModule,
)
    requires
        match_keys(acc).no_duplicates(),
    ensures
        match_keys(collected(acc, rel, targets, names, m)).no_duplicates(),
    decreases names.len(),
{
    if names.len() > 0 {
        lemma_collected_distinct(acc, rel, targets, names.drop_last(), m);
        let before = collected(acc, rel, targets, names.drop_last(), m);
        let name = names.last();
        if name_matches(name, targets) && !has_match(before, rel, name, m.path@) {
            let after = before.push((rel, name, m));
            assert(match_keys(after) =~= match_keys(before).push((rel, name, m.path@)));
            assert forall|a: int, b: int|
                0 <= a < match_keys(after).len() && 0 <= b < match_keys(after).len() && a != b implies match_keys(
                after,
            )[a] != match_keys(after)[b] by {
                if a == before.len() as int && b < before.len() {
                    assert(match_keys(after)[b] == (before[b].0, before[b].1, before[b].2.path@));
                } else if b == before.len() as int && a < before.len() {
                    assert(match_keys(after)[a] == (before[a].0, before[a].1, before[a].2.path@));
                } else if a < before.len() && b < before.len() {
                    assert(match_keys(after)[a] == match_keys(before)[a]);
                    assert(match_keys(after)[b] == match_keys(before)[b]);
                }
            }
        }
    }
}

/// No relationship, relation name and module path is listed twice among
/// the matches of all modules.
pub proof fn lemma_all_collected_distinct(modules: Seq<ParsedModule>, targets: Seq<Seq<char>>)
    ensures
        match_keys(all_collected(modules, targets)).no_duplicates(),
    decreases modules.len(),
{
    if modules.len() == 0 {
        assert(match_keys(Seq::<MatchSpec>::empty()) =~= Seq::empty());
    } else {
        lemma_all_collected_distinct(modules.drop_last(), targets);
        let acc = all_collected(modules.drop_last(), targets);
        let m = modules.last();
        let a = collected(acc, "depends"@, targets, views(m.dependency_names@), m);
        lemma_collected_distinct(acc, "depends"@, targets, views(m.dependency_names@), m);
        let b = collected(a, "recommends"@, targets, views(m.recommendation_names@), m);
        lemma_collected_distinct(a, "recommends"@, targets, views(m.recommendation_names@), m);
        let c = collected(b, "suggests"@, targets, views(m.suggestion_names@), m);
        lemma_collected_distinct(b, "suggests"@, targets, views(m.suggestion_names@), m);
        let d = collected(c, "conflicts"@, targets, views(m.conflict_names@), m);
        lemma_collected_distinct(c, "conflicts"@, targets, views(m.conflict_names@), m);
        lemma_collected_distinct(d, "provides"@, targets, views(m.provided_names@), m);
    }
}

} // verus!
