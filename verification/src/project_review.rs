//! Structural architecture facts and preserved-case replay for compiled projects.
//! No interpretation, deployment claims, file writes, or approval credentials.
use std::sync::Arc;
use vstd::prelude::*;
use crate::collections::{bindings_view, increasing, lemma_sorted_union, lemma_sorted_union_holds, sorted_union, string_views, IdSet};
use crate::graph::reach_ok;
use crate::inputs::{input_view, input_views, InputBindings, InputSpec};
use crate::policy_review::{lemma_tag, lemma_tagged_step, tag, tagged, union_of};
use crate::project::{links_view, module_ids, owned_ids, policy_ids, project_limits_ok, source_view, CompiledProject, InputSource,
    ModuleSpec, OwnedInput, PolicySpec, ProjectLimits, ProjectRun};
use crate::{in_domain, Value, ValueModel};
use crate::inputs::{spec_valid_id, valid_id, MAX_INPUTS, MAX_INPUT_TEXT_UNITS};
use crate::policy_review::{lemma_prefix_units, lemma_values_units_push, values_units};
use crate::project::{execute_with, project_run_ok, Ignore, ProjectError, MAX_POLICIES};
use crate::cancel::CancellationToken;
use crate::handles::share;
use crate::text::{chars_of, count_utf8_bounded, is_unicode_space, unicode_space, utf8_len};
use crate::syntax::same_logic_spec;
use crate::text::str_equal;
use crate::collections::IdMap;

verus! {

/// Most cases one project review suite may hold.
pub const MAX_PROJECT_CASES: usize = 64;

/// One reported difference: what kind of declaration, its stable ID, and what changed.
#[derive(Clone, Debug, PartialEq, Eq)]
pub struct ProjectChange {
    pub scope: &'static str,
    pub id: String,
    pub kind: &'static str,
}

/// What a reported difference is.
pub open spec fn project_change_view(c: ProjectChange) -> (&'static str, Seq<char>, &'static str) {
    (c.scope, c.id@, c.kind)
}

pub open spec fn project_changes_view(cs: Seq<ProjectChange>) -> Seq<(&'static str, Seq<char>, &'static str)> {
    cs.map_values(|c: ProjectChange| project_change_view(c))
}

/// The differences between two compiled projects.
#[derive(Clone, Debug)]
pub struct ProjectDifference {
    pub changes: Vec<ProjectChange>,
    /// Conservative consumers in either version; not a proof of changed behavior.
    pub impacted_policies: IdSet,
}

/// Each change of one scope, labelled with the scope.
pub open spec fn scoped(scope: &'static str, cs: Seq<(Seq<char>, &'static str)>) -> Seq<(&'static str, Seq<char>, &'static str)> {
    cs.map_values(|c: (Seq<char>, &'static str)| (scope, c.0, c.1))
}

/// The module with ID `id`, if any.
pub open spec fn find_module(ms: Seq<ModuleSpec>, id: Seq<char>) -> Option<ModuleSpec> {
    if module_ids(ms).contains(id) { Some(ms[module_ids(ms).index_of(id)]) } else { None }
}

/// The owned input with ID `id`, if any.
pub open spec fn find_owned(os: Seq<OwnedInput>, id: Seq<char>) -> Option<OwnedInput> {
    if owned_ids(os).contains(id) { Some(os[owned_ids(os).index_of(id)]) } else { None }
}

/// The policy with ID `id`, if any.
pub open spec fn find_policy(ps: Seq<PolicySpec>, id: Seq<char>) -> Option<PolicySpec> {
    if policy_ids(ps).contains(id) { Some(ps[policy_ids(ps).index_of(id)]) } else { None }
}

/// What changed of one module.
pub open spec fn module_kinds(a: Option<ModuleSpec>, b: Option<ModuleSpec>) -> Seq<&'static str> {
    match (a, b) {
        (Some(x), Some(y)) => (if x.name@ != y.name@ { seq!["renamed"] } else { Seq::empty() })
            + (if x.imports.members() != y.imports.members() { seq!["imports-changed"] } else { Seq::empty() }),
        (None, Some(_)) => seq!["added"],
        (Some(_), None) => seq!["removed"],
        (None, None) => Seq::empty(),
    }
}

/// What changed of one external input.
pub open spec fn owned_kinds(a: Option<OwnedInput>, b: Option<OwnedInput>) -> Seq<&'static str> {
    match (a, b) {
        (Some(x), Some(y)) => (if x.module@ != y.module@ { seq!["owner-changed"] } else { Seq::empty() })
            + (if x.spec.name@ != y.spec.name@ { seq!["renamed"] } else { Seq::empty() })
            + (if x.spec.input_type != y.spec.input_type { seq!["type-changed"] } else { Seq::empty() }),
        (None, Some(_)) => seq!["added"],
        (Some(_), None) => seq!["removed"],
        (None, None) => Seq::empty(),
    }
}

/// What changed of one policy; `same_logic` says whether both compiled to the same logic.
pub open spec fn policy_kinds(a: Option<PolicySpec>, b: Option<PolicySpec>, same_logic: bool) -> Seq<&'static str> {
    match (a, b) {
        (Some(x), Some(y)) => (if x.name@ != y.name@ { seq!["renamed"] } else { Seq::empty() })
            + (if x.module@ != y.module@ { seq!["owner-changed"] } else { Seq::empty() })
            + (if x.exported != y.exported { seq!["visibility-changed"] } else { Seq::empty() })
            + (if input_views(x.inputs@) != input_views(y.inputs@) { seq!["input-schema-changed"] } else { Seq::empty() })
            + (if links_view(x.links) != links_view(y.links) { seq!["links-changed"] } else { Seq::empty() })
            + (if x.uri@ != y.uri@ { seq!["source-uri-changed"] } else { Seq::empty() })
            + (if x.source@ != y.source@ { seq!["source-text-changed"] } else { Seq::empty() })
            + (if !same_logic { seq!["logic-changed"] } else { Seq::empty() }),
        (None, Some(_)) => seq!["added"],
        (Some(_), None) => seq!["removed"],
        (None, None) => Seq::empty(),
    }
}

pub open spec fn module_kinds_of(before: Seq<ModuleSpec>, after: Seq<ModuleSpec>) -> spec_fn(Seq<char>) -> Seq<&'static str> {
    |id: Seq<char>| module_kinds(find_module(before, id), find_module(after, id))
}

pub open spec fn owned_kinds_of(before: Seq<OwnedInput>, after: Seq<OwnedInput>) -> spec_fn(Seq<char>) -> Seq<&'static str> {
    |id: Seq<char>| owned_kinds(find_owned(before, id), find_owned(after, id))
}

pub open spec fn policy_kinds_of(before: CompiledProject, after: CompiledProject) -> spec_fn(Seq<char>) -> Seq<&'static str> {
    |id: Seq<char>| policy_kinds(find_policy(before.spec_project().policies@, id), find_policy(after.spec_project().policies@, id),
        same_logic_spec(before.spec_compiled().at(id), after.spec_compiled().at(id)))
}

/// Every change between two projects: modules, then external inputs, then policies, each
/// scope by ID in increasing order.
pub open spec fn project_changes_spec(before: CompiledProject, after: CompiledProject) -> Seq<(&'static str, Seq<char>, &'static str)> {
    let b = before.spec_project();
    let a = after.spec_project();
    scoped("module", tagged(sorted_union(module_ids(b.modules@), module_ids(a.modules@)), module_kinds_of(b.modules@, a.modules@)))
        + scoped("input", tagged(sorted_union(owned_ids(b.inputs@), owned_ids(a.inputs@)), owned_kinds_of(b.inputs@, a.inputs@)))
        + scoped("policy", tagged(sorted_union(policy_ids(b.policies@), policy_ids(a.policies@)), policy_kinds_of(before, after)))
}

/// Whether a change concerns a policy: the policy itself, its owning module, or an external
/// input one of its ports reads.
pub open spec fn touches(p: PolicySpec, c: (&'static str, Seq<char>, &'static str)) -> bool {
    if c.0@ == "policy"@ {
        p.id@ == c.1
    } else if c.0@ == "module"@ {
        p.module@ == c.1
    } else if c.0@ == "input"@ {
        exists|t: int| 0 <= t < p.links.values().len() && (#[trigger] p.links.values()[t] matches InputSource::External(e) && e@ == c.1)
    } else {
        false
    }
}

pub open spec fn touched(p: PolicySpec, cs: Seq<(&'static str, Seq<char>, &'static str)>) -> bool {
    exists|j: int| 0 <= j < cs.len() && touches(p, #[trigger] cs[j])
}

/// The policies of `p` that some change concerns.
pub open spec fn seeds_ok(p: CompiledProject, cs: Seq<(&'static str, Seq<char>, &'static str)>, s: IdSet) -> bool {
    forall|k: Seq<char>| #[trigger] s.has(k) <==> exists|i: int| 0 <= i < p.spec_project().policies@.len()
        && (#[trigger] p.spec_project().policies@[i]).id@ == k && touched(p.spec_project().policies@[i], cs)
}

/// What `compare_projects` reports: every change, and the policies that depend, in either
/// version, on a policy that a change concerns.
pub open spec fn difference_ok(before: CompiledProject, after: CompiledProject, d: ProjectDifference) -> bool {
    let cs = project_changes_spec(before, after);
    &&& project_changes_view(d.changes@) == cs
    &&& exists|s1: IdSet, r1: IdSet, s2: IdSet, r2: IdSet|
        #![trigger seeds_ok(before, cs, s1), reach_ok(before.spec_dependencies(), s1, r1), seeds_ok(after, cs, s2), reach_ok(after.spec_dependencies(), s2, r2)]
        seeds_ok(before, cs, s1) && reach_ok(before.spec_dependencies(), s1, r1)
        && seeds_ok(after, cs, s2) && reach_ok(after.spec_dependencies(), s2, r2)
        && forall|k: Seq<char>| #[trigger] d.impacted_policies.has(k) <==> (r1.has(k) || r2.has(k))
}

fn push_project_change(out: &mut Vec<ProjectChange>, scope: &'static str, id: &String, kind: &'static str)
    ensures project_changes_view(final(out)@) == project_changes_view(old(out)@).push((scope, id@, kind)),
{
    out.push(ProjectChange { scope, id: id.clone(), kind });
    assert(project_changes_view(final(out)@) =~= project_changes_view(old(out)@).push((scope, id@, kind)));
}

proof fn lemma_scoped(scope: &'static str, a: Seq<(Seq<char>, &'static str)>, b: Seq<(Seq<char>, &'static str)>)
    ensures
        scoped(scope, a + b) == scoped(scope, a) + scoped(scope, b),
        scoped(scope, Seq::empty()) == Seq::<(&'static str, Seq<char>, &'static str)>::empty(),
{
    assert(scoped(scope, a + b) =~= scoped(scope, a) + scoped(scope, b));
    assert(scoped(scope, Seq::empty()) =~= Seq::<(&'static str, Seq<char>, &'static str)>::empty());
}

/// A position in a list of distinct IDs is where `index_of` finds that ID.
proof fn lemma_index_of_increasing(ids: Seq<Seq<char>>, i: int)
    requires increasing(ids), 0 <= i < ids.len(),
    ensures ids.contains(ids[i]), ids.index_of(ids[i]) == i,
{
    assert(ids.contains(ids[i]));
    let j = ids.index_of(ids[i]);
    if j != i {
        crate::collections::lemma_seq_lt_irreflexive(ids[i]);
        if j < i { assert(crate::text::seq_lt(ids[j], ids[i])); } else { assert(crate::text::seq_lt(ids[i], ids[j])); }
    }
}

fn module_id_list(s: &[ModuleSpec]) -> (r: Vec<String>)
    ensures string_views(r@) == module_ids(s@),
{
    let mut r: Vec<String> = Vec::new();
    let mut i: usize = 0;
    while i < s.len()
        invariant i <= s@.len(), r@.len() == i, forall|j: int| 0 <= j < i ==> (#[trigger] r@[j])@ == s@[j].id@,
        decreases s@.len() - i,
    {
        r.push(s[i].id.clone());
        i += 1;
    }
    assert(string_views(r@) =~= module_ids(s@));
    r
}

fn owned_id_list(s: &[OwnedInput]) -> (r: Vec<String>)
    ensures string_views(r@) == owned_ids(s@),
{
    let mut r: Vec<String> = Vec::new();
    let mut i: usize = 0;
    while i < s.len()
        invariant i <= s@.len(), r@.len() == i, forall|j: int| 0 <= j < i ==> (#[trigger] r@[j])@ == s@[j].spec.id@,
        decreases s@.len() - i,
    {
        r.push(s[i].spec.id.clone());
        i += 1;
    }
    assert(string_views(r@) =~= owned_ids(s@));
    r
}

fn policy_id_list(s: &[PolicySpec]) -> (r: Vec<String>)
    ensures string_views(r@) == policy_ids(s@),
{
    let mut r: Vec<String> = Vec::new();
    let mut i: usize = 0;
    while i < s.len()
        invariant i <= s@.len(), r@.len() == i, forall|j: int| 0 <= j < i ==> (#[trigger] r@[j])@ == s@[j].id@,
        decreases s@.len() - i,
    {
        r.push(s[i].id.clone());
        i += 1;
    }
    assert(string_views(r@) =~= policy_ids(s@));
    r
}

/// Position of `id` in a list of distinct IDs.
fn position(ids: &Vec<String>, id: &str) -> (r: Option<usize>)
    requires increasing(string_views(ids@)),
    ensures
        match r {
            Some(i) => i < ids@.len() && string_views(ids@).contains(id@) && string_views(ids@).index_of(id@) == i,
            None => !string_views(ids@).contains(id@),
        },
{
    let ghost v = string_views(ids@);
    let mut i: usize = 0;
    while i < ids.len()
        invariant i <= ids@.len(), v == string_views(ids@), increasing(v), forall|j: int| 0 <= j < i ==> v[j] != id@,
        decreases ids@.len() - i,
    {
        if str_equal(ids[i].as_str(), id) {
            proof {
                assert(v[i as int] == id@);
                lemma_index_of_increasing(v, i as int);
            }
            return Some(i);
        }
        i += 1;
    }
    proof {
        if v.contains(id@) {
            let j = choose|j: int| 0 <= j < v.len() && v[j] == id@;
            assert(v[j] != id@);
        }
    }
    None
}

/// Whether two schemas declare the same inputs in the same order.
fn same_inputs(a: &[InputSpec], b: &[InputSpec]) -> (r: bool)
    ensures r == (input_views(a@) == input_views(b@)),
{
    if a.len() != b.len() {
        assert(input_views(a@).len() != input_views(b@).len());
        return false;
    }
    let mut i: usize = 0;
    while i < a.len()
        invariant i <= a@.len(), a@.len() == b@.len(), forall|j: int| 0 <= j < i ==> input_view(#[trigger] a@[j]) == input_view(b@[j]),
        decreases a@.len() - i,
    {
        if !str_equal(a[i].id.as_str(), b[i].id.as_str()) || !str_equal(a[i].name.as_str(), b[i].name.as_str())
            || a[i].input_type != b[i].input_type {
            assert(input_views(a@)[i as int] != input_views(b@)[i as int]);
            return false;
        }
        i += 1;
    }
    assert(input_views(a@) =~= input_views(b@)) by {
        assert forall|j: int| 0 <= j < a@.len() implies input_views(a@)[j] == input_views(b@)[j] by {
            assert(input_view(a@[j]) == input_view(b@[j]));
        }
    }
    true
}

fn same_source(a: &InputSource, b: &InputSource) -> (r: bool)
    ensures r == (source_view(*a) == source_view(*b)),
{
    match (a, b) {
        (InputSource::External(x), InputSource::External(y)) => str_equal(x.as_str(), y.as_str()),
        (InputSource::Policy(x), InputSource::Policy(y)) => str_equal(x.as_str(), y.as_str()),
        _ => false,
    }
}

/// Whether two policies are wired the same way.
fn same_links(a: &IdMap<InputSource>, b: &IdMap<InputSource>) -> (r: bool)
    ensures r == (links_view(*a) == links_view(*b)),
{
    let x = a.entries();
    let y = b.entries();
    if x.len() != y.len() {
        assert(links_view(*a).0.len() != links_view(*b).0.len());
        return false;
    }
    let ghost av = a.values().map_values(|s: InputSource| source_view(s));
    let ghost bv = b.values().map_values(|s: InputSource| source_view(s));
    let mut i: usize = 0;
    while i < x.len()
        invariant
            i <= x@.len(), x@.len() == y@.len(),
            x@.len() == a.keys().len(), y@.len() == b.keys().len(),
            a.keys().len() == a.values().len(), b.keys().len() == b.values().len(),
            av == a.values().map_values(|s: InputSource| source_view(s)),
            bv == b.values().map_values(|s: InputSource| source_view(s)),
            forall|j: int| 0 <= j < x@.len() ==> (#[trigger] x@[j]).0@ == a.keys()[j] && x@[j].1 == a.values()[j],
            forall|j: int| 0 <= j < y@.len() ==> (#[trigger] y@[j]).0@ == b.keys()[j] && y@[j].1 == b.values()[j],
            forall|j: int| 0 <= j < i ==> #[trigger] a.keys()[j] == b.keys()[j],
            forall|j: int| 0 <= j < i ==> #[trigger] av[j] == bv[j],
        decreases x@.len() - i,
    {
        let ke = str_equal(x[i].0.as_str(), y[i].0.as_str());
        let ve = same_source(&x[i].1, &y[i].1);
        assert(x@[i as int].0@ == a.keys()[i as int] && x@[i as int].1 == a.values()[i as int]);
        assert(y@[i as int].0@ == b.keys()[i as int] && y@[i as int].1 == b.values()[i as int]);
        if !ke || !ve {
            proof {
                if links_view(*a) == links_view(*b) {
                    assert(links_view(*a).0[i as int] == links_view(*b).0[i as int]);
                    assert(links_view(*a).1[i as int] == links_view(*b).1[i as int]);
                }
            }
            return false;
        }
        assert(av[i as int] == source_view(a.values()[i as int]) && bv[i as int] == source_view(b.values()[i as int]));
        assert(a.keys()[i as int] == b.keys()[i as int] && av[i as int] == bv[i as int]);
        i += 1;
    }
    proof {
        assert(a.keys() =~= b.keys());
        assert(av =~= bv);
    }
    true
}

/// Records `kind` for `id` when `differs`.
fn note(out: &mut Vec<ProjectChange>, scope: &'static str, id: &String, kind: &'static str, differs: bool,
    Ghost(start): Ghost<Seq<(&'static str, Seq<char>, &'static str)>>, Ghost(ks): Ghost<Seq<&'static str>>)
    requires project_changes_view(old(out)@) == start + scoped(scope, tag(id@, ks)),
    ensures
        project_changes_view(final(out)@)
            == start + scoped(scope, tag(id@, ks + (if differs { seq![kind] } else { Seq::<&'static str>::empty() }))),
{
    let ghost extra: Seq<&'static str> = if differs { seq![kind] } else { Seq::<&'static str>::empty() };
    proof {
        lemma_tag(id@, ks, extra);
        lemma_scoped(scope, tag(id@, ks), tag(id@, extra));
    }
    if differs {
        push_project_change(out, scope, id, kind);
        assert(tag(id@, extra) =~= seq![(id@, kind)]);
        assert(scoped(scope, tag(id@, extra)) =~= seq![(scope, id@, kind)]);
    } else {
        assert(tag(id@, extra) =~= Seq::<(Seq<char>, &'static str)>::empty());
    }
    assert(project_changes_view(final(out)@) =~= start + scoped(scope, tag(id@, ks)) + scoped(scope, tag(id@, extra)));
}

/// Starts the changes of one ID.
proof fn lemma_no_kinds(scope: &'static str, id: Seq<char>, start: Seq<(&'static str, Seq<char>, &'static str)>)
    ensures start == start + scoped(scope, tag(id, Seq::<&'static str>::empty())),
{
    lemma_tag(id, Seq::empty(), Seq::empty());
    lemma_scoped(scope, Seq::empty(), Seq::empty());
    assert(start =~= start + scoped(scope, tag(id, Seq::<&'static str>::empty())));
}

/// The step from the changes of the first `i` IDs to those of the first `i + 1`.
proof fn lemma_scope_step(scope: &'static str, ids: Seq<Seq<char>>, i: int, kinds: spec_fn(Seq<char>) -> Seq<&'static str>,
    start: Seq<(&'static str, Seq<char>, &'static str)>)
    requires 0 <= i < ids.len(),
    ensures
        start + scoped(scope, tagged(ids.take(i), kinds)) + scoped(scope, tag(ids[i], kinds(ids[i])))
            == start + scoped(scope, tagged(ids.take(i + 1), kinds)),
{
    lemma_tagged_step(ids, i, kinds);
    lemma_scoped(scope, tagged(ids.take(i), kinds), tag(ids[i], kinds(ids[i])));
    assert(start + scoped(scope, tagged(ids.take(i), kinds)) + scoped(scope, tag(ids[i], kinds(ids[i])))
        =~= start + scoped(scope, tagged(ids.take(i + 1), kinds)));
}

/// Module changes, by ID in increasing order.
fn module_changes(before: &[ModuleSpec], after: &[ModuleSpec], out: &mut Vec<ProjectChange>)
    requires increasing(module_ids(before@)), increasing(module_ids(after@)),
    ensures
        project_changes_view(final(out)@) == project_changes_view(old(out)@)
            + scoped("module", tagged(sorted_union(module_ids(before@), module_ids(after@)), module_kinds_of(before@, after@))),
{
    let a = module_id_list(before);
    let b = module_id_list(after);
    let ids = union_of(&a, &b);
    let ghost idv = string_views(ids@);
    let ghost kinds = module_kinds_of(before@, after@);
    let ghost start0 = project_changes_view(out@);
    proof {
        lemma_sorted_union(module_ids(before@), module_ids(after@), idv);
        lemma_no_kinds("module", Seq::empty(), start0);
        assert(idv.take(0) =~= Seq::<Seq<char>>::empty());
        lemma_scoped("module", Seq::empty(), Seq::empty());
    }
    let mut i: usize = 0;
    while i < ids.len()
        invariant
            i <= ids@.len(), idv == string_views(ids@),
            string_views(a@) == module_ids(before@), string_views(b@) == module_ids(after@),
            increasing(string_views(a@)), increasing(string_views(b@)),
            kinds == module_kinds_of(before@, after@),
            project_changes_view(out@) == start0 + scoped("module", tagged(idv.take(i as int), kinds)),
        decreases ids@.len() - i,
    {
        let id = &ids[i];
        let ghost start = project_changes_view(out@);
        proof { lemma_no_kinds("module", id@, start); }
        match (position(&a, id.as_str()), position(&b, id.as_str())) {
            (Some(p), Some(q)) => {
                let d1 = !str_equal(before[p].name.as_str(), after[q].name.as_str());
                note(out, "module", id, "renamed", d1, Ghost(start), Ghost(Seq::empty()));
                let ghost k1: Seq<&'static str> = Seq::empty() + (if d1 { seq!["renamed"] } else { Seq::<&'static str>::empty() });
                let d2 = !before[p].imports.same(&after[q].imports);
                note(out, "module", id, "imports-changed", d2, Ghost(start), Ghost(k1));
                proof {
                    assert(find_module(before@, id@) == Some(before@[p as int]));
                    assert(find_module(after@, id@) == Some(after@[q as int]));
                    assert(kinds(id@) =~= k1 + (if d2 { seq!["imports-changed"] } else { Seq::<&'static str>::empty() }));
                }
            }
            (None, Some(_)) => {
                note(out, "module", id, "added", true, Ghost(start), Ghost(Seq::empty()));
                assert(kinds(id@) =~= Seq::<&'static str>::empty() + seq!["added"]);
            }
            (Some(_), None) => {
                note(out, "module", id, "removed", true, Ghost(start), Ghost(Seq::empty()));
                assert(kinds(id@) =~= Seq::<&'static str>::empty() + seq!["removed"]);
            }
            (None, None) => {
                assert(kinds(id@) =~= Seq::<&'static str>::empty());
            }
        }
        proof {
            assert(idv[i as int] == id@);
            assert(project_changes_view(out@) == start + scoped("module", tag(id@, kinds(id@))));
            lemma_scope_step("module", idv, i as int, kinds, start0);
        }
        i += 1;
    }
    assert(idv.take(ids@.len() as int) =~= idv);
}

/// External input changes, by ID in increasing order.
fn owned_changes(before: &[OwnedInput], after: &[OwnedInput], out: &mut Vec<ProjectChange>)
    requires increasing(owned_ids(before@)), increasing(owned_ids(after@)),
    ensures
        project_changes_view(final(out)@) == project_changes_view(old(out)@)
            + scoped("input", tagged(sorted_union(owned_ids(before@), owned_ids(after@)), owned_kinds_of(before@, after@))),
{
    let a = owned_id_list(before);
    let b = owned_id_list(after);
    let ids = union_of(&a, &b);
    let ghost idv = string_views(ids@);
    let ghost kinds = owned_kinds_of(before@, after@);
    let ghost start0 = project_changes_view(out@);
    proof {
        lemma_sorted_union(owned_ids(before@), owned_ids(after@), idv);
        assert(idv.take(0) =~= Seq::<Seq<char>>::empty());
        lemma_scoped("input", Seq::empty(), Seq::empty());
        assert(start0 =~= start0 + scoped("input", tagged(idv.take(0), kinds)));
    }
    let mut i: usize = 0;
    while i < ids.len()
        invariant
            i <= ids@.len(), idv == string_views(ids@),
            string_views(a@) == owned_ids(before@), string_views(b@) == owned_ids(after@),
            increasing(string_views(a@)), increasing(string_views(b@)),
            kinds == owned_kinds_of(before@, after@),
            project_changes_view(out@) == start0 + scoped("input", tagged(idv.take(i as int), kinds)),
        decreases ids@.len() - i,
    {
        let id = &ids[i];
        let ghost start = project_changes_view(out@);
        proof { lemma_no_kinds("input", id@, start); }
        match (position(&a, id.as_str()), position(&b, id.as_str())) {
            (Some(p), Some(q)) => {
                let d1 = !str_equal(before[p].module.as_str(), after[q].module.as_str());
                note(out, "input", id, "owner-changed", d1, Ghost(start), Ghost(Seq::empty()));
                let ghost k1: Seq<&'static str> = Seq::empty() + (if d1 { seq!["owner-changed"] } else { Seq::<&'static str>::empty() });
                let d2 = !str_equal(before[p].spec.name.as_str(), after[q].spec.name.as_str());
                note(out, "input", id, "renamed", d2, Ghost(start), Ghost(k1));
                let ghost k2: Seq<&'static str> = k1 + (if d2 { seq!["renamed"] } else { Seq::<&'static str>::empty() });
                let d3 = before[p].spec.input_type != after[q].spec.input_type;
                note(out, "input", id, "type-changed", d3, Ghost(start), Ghost(k2));
                proof {
                    assert(find_owned(before@, id@) == Some(before@[p as int]));
                    assert(find_owned(after@, id@) == Some(after@[q as int]));
                    assert(kinds(id@) =~= k2 + (if d3 { seq!["type-changed"] } else { Seq::<&'static str>::empty() }));
                }
            }
            (None, Some(_)) => {
                note(out, "input", id, "added", true, Ghost(start), Ghost(Seq::empty()));
                assert(kinds(id@) =~= Seq::<&'static str>::empty() + seq!["added"]);
            }
            (Some(_), None) => {
                note(out, "input", id, "removed", true, Ghost(start), Ghost(Seq::empty()));
                assert(kinds(id@) =~= Seq::<&'static str>::empty() + seq!["removed"]);
            }
            (None, None) => {
                assert(kinds(id@) =~= Seq::<&'static str>::empty());
            }
        }
        proof {
            assert(idv[i as int] == id@);
            assert(project_changes_view(out@) == start + scoped("input", tag(id@, kinds(id@))));
            lemma_scope_step("input", idv, i as int, kinds, start0);
        }
        i += 1;
    }
    assert(idv.take(ids@.len() as int) =~= idv);
}

/// The changes of a policy present in both projects.
fn policy_pair(before: &CompiledProject, after: &CompiledProject, x: &PolicySpec, y: &PolicySpec, id: &String,
    out: &mut Vec<ProjectChange>, Ghost(start): Ghost<Seq<(&'static str, Seq<char>, &'static str)>>)
    requires
        project_changes_view(old(out)@) == start,
        before.spec_compiled().has(id@), after.spec_compiled().has(id@),
    ensures
        project_changes_view(final(out)@) == start + scoped("policy", tag(id@, policy_kinds(Some(*x), Some(*y),
            same_logic_spec(before.spec_compiled().at(id@), after.spec_compiled().at(id@))))),
{
    proof { lemma_no_kinds("policy", id@, start); }
    let d1 = !str_equal(x.name.as_str(), y.name.as_str());
    note(out, "policy", id, "renamed", d1, Ghost(start), Ghost(Seq::empty()));
    let ghost k1: Seq<&'static str> = Seq::empty() + (if d1 { seq!["renamed"] } else { Seq::<&'static str>::empty() });
    let d2 = !str_equal(x.module.as_str(), y.module.as_str());
    note(out, "policy", id, "owner-changed", d2, Ghost(start), Ghost(k1));
    let ghost k2: Seq<&'static str> = k1 + (if d2 { seq!["owner-changed"] } else { Seq::<&'static str>::empty() });
    let d3 = x.exported != y.exported;
    note(out, "policy", id, "visibility-changed", d3, Ghost(start), Ghost(k2));
    let ghost k3: Seq<&'static str> = k2 + (if d3 { seq!["visibility-changed"] } else { Seq::<&'static str>::empty() });
    let d4 = !same_inputs(x.inputs.as_slice(), y.inputs.as_slice());
    note(out, "policy", id, "input-schema-changed", d4, Ghost(start), Ghost(k3));
    let ghost k4: Seq<&'static str> = k3 + (if d4 { seq!["input-schema-changed"] } else { Seq::<&'static str>::empty() });
    let d5 = !same_links(&x.links, &y.links);
    note(out, "policy", id, "links-changed", d5, Ghost(start), Ghost(k4));
    let ghost k5: Seq<&'static str> = k4 + (if d5 { seq!["links-changed"] } else { Seq::<&'static str>::empty() });
    let d6 = !str_equal(x.uri.as_str(), y.uri.as_str());
    note(out, "policy", id, "source-uri-changed", d6, Ghost(start), Ghost(k5));
    let ghost k6: Seq<&'static str> = k5 + (if d6 { seq!["source-uri-changed"] } else { Seq::<&'static str>::empty() });
    let d7 = !str_equal(x.source.as_str(), y.source.as_str());
    note(out, "policy", id, "source-text-changed", d7, Ghost(start), Ghost(k6));
    let ghost k7: Seq<&'static str> = k6 + (if d7 { seq!["source-text-changed"] } else { Seq::<&'static str>::empty() });
    let d8 = match (before.expression(id.as_str()), after.expression(id.as_str())) {
        (Some(e), Some(f)) => !e.same_logic(f),
        _ => { proof { assert(false); } true }
    };
    note(out, "policy", id, "logic-changed", d8, Ghost(start), Ghost(k7));
    assert(policy_kinds(Some(*x), Some(*y), same_logic_spec(before.spec_compiled().at(id@), after.spec_compiled().at(id@)))
        =~= k7 + (if d8 { seq!["logic-changed"] } else { Seq::<&'static str>::empty() }));
}

/// Policy changes, by ID in increasing order.
fn policy_changes(before: &CompiledProject, after: &CompiledProject, out: &mut Vec<ProjectChange>)
    ensures
        project_changes_view(final(out)@) == project_changes_view(old(out)@)
            + scoped("policy", tagged(sorted_union(policy_ids(before.spec_project().policies@), policy_ids(after.spec_project().policies@)),
                policy_kinds_of(*before, *after))),
{
    proof {
        use_type_invariant(before);
        use_type_invariant(after);
        before.lemma_wf();
        after.lemma_wf();
    }
    let bs = before.spec().policies.as_slice();
    let as_ = after.spec().policies.as_slice();
    let a = policy_id_list(bs);
    let b = policy_id_list(as_);
    let ids = union_of(&a, &b);
    let ghost idv = string_views(ids@);
    let ghost kinds = policy_kinds_of(*before, *after);
    let ghost start0 = project_changes_view(out@);
    proof {
        lemma_sorted_union(policy_ids(bs@), policy_ids(as_@), idv);
        assert(idv.take(0) =~= Seq::<Seq<char>>::empty());
        lemma_scoped("policy", Seq::empty(), Seq::empty());
        assert(start0 =~= start0 + scoped("policy", tagged(idv.take(0), kinds)));
    }
    let mut i: usize = 0;
    while i < ids.len()
        invariant
            i <= ids@.len(), idv == string_views(ids@),
            bs@ == before.spec_project().policies@, as_@ == after.spec_project().policies@,
            string_views(a@) == policy_ids(bs@), string_views(b@) == policy_ids(as_@),
            increasing(string_views(a@)), increasing(string_views(b@)),
            forall|k: Seq<char>| #[trigger] before.spec_compiled().has(k) <==> policy_ids(bs@).contains(k),
            forall|k: Seq<char>| #[trigger] after.spec_compiled().has(k) <==> policy_ids(as_@).contains(k),
            kinds == policy_kinds_of(*before, *after),
            project_changes_view(out@) == start0 + scoped("policy", tagged(idv.take(i as int), kinds)),
        decreases ids@.len() - i,
    {
        let id = &ids[i];
        let ghost start = project_changes_view(out@);
        proof { lemma_no_kinds("policy", id@, start); }
        match (position(&a, id.as_str()), position(&b, id.as_str())) {
            (Some(p), Some(q)) => {
                proof {
                    assert(policy_ids(bs@).contains(id@));
                    assert(policy_ids(as_@).contains(id@));
                }
                policy_pair(before, after, &bs[p], &as_[q], id, out, Ghost(start));
                proof {
                    assert(find_policy(bs@, id@) == Some(bs@[p as int]));
                    assert(find_policy(as_@, id@) == Some(as_@[q as int]));
                }
            }
            (None, Some(_)) => {
                note(out, "policy", id, "added", true, Ghost(start), Ghost(Seq::empty()));
                assert(kinds(id@) =~= Seq::<&'static str>::empty() + seq!["added"]);
            }
            (Some(_), None) => {
                note(out, "policy", id, "removed", true, Ghost(start), Ghost(Seq::empty()));
                assert(kinds(id@) =~= Seq::<&'static str>::empty() + seq!["removed"]);
            }
            (None, None) => {
                assert(kinds(id@) =~= Seq::<&'static str>::empty());
            }
        }
        proof {
            assert(idv[i as int] == id@);
            assert(project_changes_view(out@) == start + scoped("policy", tag(id@, kinds(id@))));
            lemma_scope_step("policy", idv, i as int, kinds, start0);
        }
        i += 1;
    }
    assert(idv.take(ids@.len() as int) =~= idv);
}

/// Whether a port of `links` reads external input `id`.
fn reads_external(links: &IdMap<InputSource>, id: &str) -> (r: bool)
    ensures r == exists|t: int| 0 <= t < links.values().len() && (#[trigger] links.values()[t] matches InputSource::External(e) && e@ == id@),
{
    let entries = links.entries();
    let mut t: usize = 0;
    while t < entries.len()
        invariant
            t <= entries@.len(), entries@.len() == links.values().len(),
            forall|j: int| 0 <= j < entries@.len() ==> (#[trigger] entries@[j]).1 == links.values()[j],
            forall|j: int| 0 <= j < t ==> !(#[trigger] links.values()[j] matches InputSource::External(e) && e@ == id@),
        decreases entries@.len() - t,
    {
        assert(entries@[t as int].1 == links.values()[t as int]);
        match &entries[t].1 {
            InputSource::External(e) => {
                if str_equal(e.as_str(), id) {
                    return true;
                }
            }
            InputSource::Policy(_) => {}
        }
        t += 1;
    }
    false
}

/// Whether a change concerns `policy`.
fn touches_exec(policy: &PolicySpec, c: &ProjectChange) -> (r: bool)
    ensures r == touches(*policy, project_change_view(*c)),
{
    if str_equal(c.scope, "policy") {
        str_equal(policy.id.as_str(), c.id.as_str())
    } else if str_equal(c.scope, "module") {
        str_equal(policy.module.as_str(), c.id.as_str())
    } else if str_equal(c.scope, "input") {
        reads_external(&policy.links, c.id.as_str())
    } else {
        false
    }
}

/// The policies of `p` that some change concerns.
fn seeds_of(p: &CompiledProject, changes: &[ProjectChange]) -> (s: IdSet)
    ensures seeds_ok(*p, project_changes_view(changes@), s),
{
    let ghost cs = project_changes_view(changes@);
    let ps = p.spec().policies.as_slice();
    let mut s = IdSet::new();
    let mut i: usize = 0;
    while i < ps.len()
        invariant
            i <= ps@.len(), ps@ == p.spec_project().policies@, cs == project_changes_view(changes@),
            forall|k: Seq<char>| #[trigger] s.has(k) <==> exists|j: int| 0 <= j < i && (#[trigger] ps@[j]).id@ == k && touched(ps@[j], cs),
        decreases ps@.len() - i,
    {
        let mut hit = false;
        let mut j: usize = 0;
        while j < changes.len()
            invariant
                j <= changes@.len(), i < ps@.len(), cs == project_changes_view(changes@),
                hit == exists|m: int| 0 <= m < j && touches(ps@[i as int], #[trigger] cs[m]),
            decreases changes@.len() - j,
        {
            if touches_exec(&ps[i], &changes[j]) {
                assert(cs[j as int] == project_change_view(changes@[j as int]));
                hit = true;
            } else {
                assert(cs[j as int] == project_change_view(changes@[j as int]));
            }
            j += 1;
        }
        assert(hit == touched(ps@[i as int], cs));
        let ghost before = s;
        if hit {
            s.insert(ps[i].id.clone());
        }
        proof {
            assert forall|k: Seq<char>| #[trigger] s.has(k) <==> exists|j: int| 0 <= j < i + 1 && (#[trigger] ps@[j]).id@ == k && touched(ps@[j], cs) by {
                if exists|j: int| 0 <= j < i + 1 && (#[trigger] ps@[j]).id@ == k && touched(ps@[j], cs) {
                    let j = choose|j: int| 0 <= j < i + 1 && (#[trigger] ps@[j]).id@ == k && touched(ps@[j], cs);
                    if j < i { assert(before.has(k)); }
                }
            }
        }
        i += 1;
    }
    s
}

/// Adds every member of `from`.
fn add_all(target: &mut IdSet, from: &IdSet)
    ensures forall|k: Seq<char>| #[trigger] final(target).has(k) <==> (old(target).has(k) || from.has(k)),
{
    let items = from.items();
    let ghost start = *target;
    let mut i: usize = 0;
    while i < items.len()
        invariant
            i <= items@.len(), items@.len() == from.members().len(),
            forall|j: int| 0 <= j < items@.len() ==> (#[trigger] items@[j])@ == from.members()[j],
            forall|k: Seq<char>| #[trigger] target.has(k) <==> (start.has(k) || from.members().take(i as int).contains(k)),
        decreases items@.len() - i,
    {
        let ghost before = *target;
        target.insert(items[i].clone());
        proof {
            let m = from.members();
            assert(m.take(i + 1) =~= m.take(i as int).push(m[i as int]));
            let t0 = m.take(i as int);
            let t1 = m.take(i + 1);
            assert forall|k: Seq<char>| #[trigger] target.has(k) <==> (start.has(k) || t1.contains(k)) by {
                if t1.contains(k) && k != m[i as int] {
                    let j = choose|j: int| 0 <= j < t1.len() && t1[j] == k;
                    assert(t0[j] == k);
                }
                if t0.contains(k) {
                    let j = choose|j: int| 0 <= j < t0.len() && t0[j] == k;
                    assert(t1[j] == k);
                }
                if k == m[i as int] { assert(t1[i as int] == k); }
            }
        }
        i += 1;
    }
    assert(from.members().take(items@.len() as int) =~= from.members());
}

/// Compute changes from declarations and compiled expressions, not generated prose.
pub fn compare_projects(before: &CompiledProject, after: &CompiledProject) -> (d: ProjectDifference)
    ensures difference_ok(*before, *after, d),
{
    proof {
        use_type_invariant(before);
        use_type_invariant(after);
        before.lemma_wf();
        after.lemma_wf();
    }
    let mut changes: Vec<ProjectChange> = Vec::new();
    module_changes(before.spec().modules.as_slice(), after.spec().modules.as_slice(), &mut changes);
    owned_changes(before.spec().inputs.as_slice(), after.spec().inputs.as_slice(), &mut changes);
    policy_changes(before, after, &mut changes);
    let ghost cs = project_changes_view(changes@);
    assert(cs =~= project_changes_spec(*before, *after));
    let s1 = seeds_of(before, changes.as_slice());
    let r1 = before.impacted(&s1);
    let s2 = seeds_of(after, changes.as_slice());
    let r2 = after.impacted(&s2);
    let mut impacted = IdSet::new();
    add_all(&mut impacted, &r1);
    add_all(&mut impacted, &r2);
    let d = ProjectDifference { changes, impacted_policies: impacted };
    assert(seeds_ok(*before, cs, s1) && reach_ok(before.spec_dependencies(), s1, r1)
        && seeds_ok(*after, cs, s2) && reach_ok(after.spec_dependencies(), s2, r2)
        && forall|k: Seq<char>| #[trigger] d.impacted_policies.has(k) <==> (r1.has(k) || r2.has(k)));
    d
}

/// One preserved case: stable ID, display name, external inputs, and independent
/// assertions keyed by policy ID, not display name or position.
#[derive(Clone, Debug, PartialEq, Eq)]
pub struct ProjectCase {
    pub id: String,
    pub name: String,
    pub inputs: InputBindings,
    pub expected: InputBindings,
}

/// What a case is.
pub open spec fn project_case_view(c: ProjectCase) -> (Seq<char>, Seq<char>, (Seq<Seq<char>>, Seq<ValueModel>), (Seq<Seq<char>>, Seq<ValueModel>)) {
    (c.id@, c.name@, bindings_view(c.inputs), bindings_view(c.expected))
}

impl ProjectCase {
    /// An equal copy.
    pub fn duplicate(&self) -> (c: Self)
        ensures project_case_view(c) == project_case_view(*self),
    {
        ProjectCase { id: self.id.clone(), name: self.name.clone(), inputs: self.inputs.duplicate(), expected: self.expected.duplicate() }
    }
}

/// The verdict of one replayed case.
#[derive(Clone, Copy, Debug, PartialEq, Eq, Structural)]
pub enum CaseStatus { Passed, Mismatch, ExecutionError, NoExpectations }

/// One case run against one project.
#[derive(Debug)]
pub struct ProjectCaseResult {
    case: ProjectCase,
    run: ProjectRun,
    status: CaseStatus,
    failed_assertions: Vec<String>,
}

impl ProjectCaseResult {
    pub closed spec fn spec_case(&self) -> ProjectCase { self.case }
    pub closed spec fn spec_run(&self) -> ProjectRun { self.run }
    pub closed spec fn spec_status(&self) -> CaseStatus { self.status }
    pub closed spec fn spec_failed(&self) -> Seq<Seq<char>> { string_views(self.failed_assertions@) }

    pub fn case(&self) -> (r: &ProjectCase)
        ensures *r == self.spec_case(),
    {
        &self.case
    }

    pub fn run(&self) -> (r: &ProjectRun)
        ensures *r == self.spec_run(),
    {
        &self.run
    }

    pub fn status(&self) -> (r: CaseStatus)
        ensures r == self.spec_status(),
    {
        self.status
    }

    /// IDs of the policies whose result differs from the case's assertion, in ID order.
    pub fn failed_assertions(&self) -> (r: &[String])
        ensures string_views(r@) == self.spec_failed(),
    {
        self.failed_assertions.as_slice()
    }
}

/// Per-run budgets and the aggregate budgets of a whole review.
#[derive(Clone, Copy, Debug)]
pub struct ProjectReviewLimits {
    pub execution: ProjectLimits,
    pub max_steps: usize,
    pub max_events: usize,
    pub max_text_units: usize,
}

impl Default for ProjectReviewLimits {
    fn default() -> (l: Self)
        ensures
            l.execution.per_policy.max_steps == 10_000, l.execution.per_policy.max_depth == crate::MAX_DEPTH,
            l.execution.per_policy.max_trace == 10_000, l.execution.max_steps == 100_000,
            l.execution.max_events == 100_000, l.execution.max_text_units == 1_048_576, l.execution.retain_trace,
            l.max_steps == 1_000_000, l.max_events == 1_000_000, l.max_text_units == 4_194_304,
    {
        ProjectReviewLimits { execution: ProjectLimits::default(), max_steps: 1_000_000, max_events: 1_000_000,
            max_text_units: 4_194_304 }
    }
}

/// Whether a review accepts these budgets.
pub open spec fn review_limits_ok(l: ProjectReviewLimits) -> bool {
    &&& project_limits_ok(l.execution)
    &&& 1 <= l.max_steps <= 10_000_000
    &&& 1 <= l.max_events <= 1_000_000
    &&& l.max_text_units <= 16_777_216
}

/// A completed review: read-only, scoped evidence.
#[derive(Debug)]
pub struct ProjectReview {
    baseline: Arc<CompiledProject>,
    candidate: Arc<CompiledProject>,
    difference: ProjectDifference,
    case_changes: Vec<ProjectChange>,
    baseline_results: Vec<ProjectCaseResult>,
    candidate_results: Vec<ProjectCaseResult>,
    historical_results: Vec<ProjectCaseResult>,
    limits: ProjectReviewLimits,
}

/// Whether a suite ran at least one case and every case passed.
pub open spec fn suite_passed(rs: Seq<ProjectCaseResult>) -> bool {
    rs.len() > 0 && forall|i: int| 0 <= i < rs.len() ==> (#[trigger] rs[i]).spec_status() == CaseStatus::Passed
}

/// IDs of the cases, among the first `n` positions, that passed in `before` and not in `after`.
pub open spec fn regressions_upto(before: Seq<ProjectCaseResult>, after: Seq<ProjectCaseResult>, n: int) -> Seq<Seq<char>>
    decreases n,
{
    if n <= 0 {
        Seq::empty()
    } else {
        let rest = regressions_upto(before, after, n - 1);
        if before[n - 1].spec_status() == CaseStatus::Passed && after[n - 1].spec_status() != CaseStatus::Passed {
            rest.push(before[n - 1].spec_case().id@)
        } else {
            rest
        }
    }
}

impl ProjectReview {
    pub closed spec fn spec_baseline(&self) -> CompiledProject { *self.baseline }
    pub closed spec fn spec_candidate(&self) -> CompiledProject { *self.candidate }
    pub closed spec fn spec_difference(&self) -> ProjectDifference { self.difference }
    pub closed spec fn spec_case_changes(&self) -> Seq<ProjectChange> { self.case_changes@ }
    pub closed spec fn spec_baseline_results(&self) -> Seq<ProjectCaseResult> { self.baseline_results@ }
    pub closed spec fn spec_candidate_results(&self) -> Seq<ProjectCaseResult> { self.candidate_results@ }
    pub closed spec fn spec_historical_results(&self) -> Seq<ProjectCaseResult> { self.historical_results@ }
    pub closed spec fn spec_limits(&self) -> ProjectReviewLimits { self.limits }

    /// Whether all three suites ran and passed.
    pub open spec fn spec_passed(&self) -> bool {
        &&& suite_passed(self.spec_baseline_results())
        &&& suite_passed(self.spec_candidate_results())
        &&& suite_passed(self.spec_historical_results())
    }

    /// IDs of old cases that passed on the baseline and do not pass on historical replay.
    pub open spec fn spec_regressions(&self) -> Seq<Seq<char>> {
        let n = if self.spec_baseline_results().len() <= self.spec_historical_results().len() {
            self.spec_baseline_results().len()
        } else {
            self.spec_historical_results().len()
        };
        regressions_upto(self.spec_baseline_results(), self.spec_historical_results(), n as int)
    }

    pub fn baseline(&self) -> (r: &Arc<CompiledProject>)
        ensures **r == self.spec_baseline(),
    {
        &self.baseline
    }

    pub fn candidate(&self) -> (r: &Arc<CompiledProject>)
        ensures **r == self.spec_candidate(),
    {
        &self.candidate
    }

    pub fn difference(&self) -> (r: &ProjectDifference)
        ensures *r == self.spec_difference(),
    {
        &self.difference
    }

    pub fn case_changes(&self) -> (r: &[ProjectChange])
        ensures r@ == self.spec_case_changes(),
    {
        self.case_changes.as_slice()
    }

    pub fn baseline_results(&self) -> (r: &[ProjectCaseResult])
        ensures r@ == self.spec_baseline_results(),
    {
        self.baseline_results.as_slice()
    }

    pub fn candidate_results(&self) -> (r: &[ProjectCaseResult])
        ensures r@ == self.spec_candidate_results(),
    {
        self.candidate_results.as_slice()
    }

    pub fn historical_results(&self) -> (r: &[ProjectCaseResult])
        ensures r@ == self.spec_historical_results(),
    {
        self.historical_results.as_slice()
    }

    pub fn limits(&self) -> (r: ProjectReviewLimits)
        ensures r == self.spec_limits(),
    {
        self.limits
    }

    /// Whether every suite ran and passed. Empty suites cannot turn a review into a passing gate.
    pub fn passed(&self) -> (r: bool)
        ensures r == self.spec_passed(),
    {
        suite_all_passed(self.baseline_results.as_slice()) && suite_all_passed(self.candidate_results.as_slice())
            && suite_all_passed(self.historical_results.as_slice())
    }

    /// IDs of old cases that passed on the baseline and do not pass on historical replay.
    pub fn regressions(&self) -> (r: Vec<&str>)
        ensures r@.map_values(|s: &str| s@) == self.spec_regressions(),
    {
        let n = if self.baseline_results.len() <= self.historical_results.len() { self.baseline_results.len() } else { self.historical_results.len() };
        let mut out: Vec<&str> = Vec::new();
        let mut i: usize = 0;
        while i < n
            invariant
                i <= n, n <= self.baseline_results@.len(), n <= self.historical_results@.len(),
                out@.map_values(|s: &str| s@) == regressions_upto(self.baseline_results@, self.historical_results@, i as int),
            decreases n - i,
        {
            let ghost before = out@;
            if self.baseline_results[i].status == CaseStatus::Passed && self.historical_results[i].status != CaseStatus::Passed {
                out.push(self.baseline_results[i].case.id.as_str());
                assert(out@.map_values(|s: &str| s@) =~= before.map_values(|s: &str| s@).push(self.baseline_results@[i as int].case.id@));
            }
            i += 1;
        }
        out
    }
}

fn suite_all_passed(rs: &[ProjectCaseResult]) -> (r: bool)
    ensures r == suite_passed(rs@),
{
    if rs.len() == 0 {
        return false;
    }
    let mut i: usize = 0;
    while i < rs.len()
        invariant i <= rs@.len(), forall|j: int| 0 <= j < i ==> (#[trigger] rs@[j]).spec_status() == CaseStatus::Passed,
        decreases rs@.len() - i,
    {
        if rs[i].status != CaseStatus::Passed {
            return false;
        }
        i += 1;
    }
    true
}

/// Law: a passing review ran every suite, and every case of every suite passed.
pub proof fn lemma_passing_review_is_complete(r: ProjectReview)
    requires r.spec_passed(),
    ensures
        r.spec_baseline_results().len() > 0, r.spec_candidate_results().len() > 0, r.spec_historical_results().len() > 0,
        forall|i: int| 0 <= i < r.spec_historical_results().len() ==> (#[trigger] r.spec_historical_results()[i]).spec_status() == CaseStatus::Passed,
        forall|i: int| 0 <= i < r.spec_baseline_results().len() ==> (#[trigger] r.spec_baseline_results()[i]).spec_status() == CaseStatus::Passed,
{
}

proof fn lemma_regression_member(before: Seq<ProjectCaseResult>, after: Seq<ProjectCaseResult>, n: int)
    requires 0 <= n <= before.len(), n <= after.len(), regressions_upto(before, after, n).len() > 0,
    ensures exists|i: int| 0 <= i < n && (#[trigger] after[i]).spec_status() != CaseStatus::Passed,
    decreases n,
{
    if !(before[n - 1].spec_status() == CaseStatus::Passed && after[n - 1].spec_status() != CaseStatus::Passed) {
        lemma_regression_member(before, after, n - 1);
    }
}

/// Law: a review with a regression does not pass.
pub proof fn lemma_regression_fails_review(r: ProjectReview)
    requires r.spec_regressions().len() > 0,
    ensures !r.spec_passed(),
{
    let n = if r.spec_baseline_results().len() <= r.spec_historical_results().len() {
        r.spec_baseline_results().len()
    } else {
        r.spec_historical_results().len()
    };
    lemma_regression_member(r.spec_baseline_results(), r.spec_historical_results(), n as int);
}

/// UTF-16 units of text in a case's inputs and expectations together.
pub open spec fn case_units(c: ProjectCase) -> nat {
    values_units(bindings_view(c.inputs).1 + bindings_view(c.expected).1)
}

/// A name with at least one character that is not white space.
pub open spec fn nonblank(s: Seq<char>) -> bool {
    exists|i: int| 0 <= i < s.len() && !is_unicode_space(#[trigger] s[i])
}

pub open spec fn ids_valid(ks: Seq<Seq<char>>) -> bool {
    forall|k: int| 0 <= k < ks.len() ==> spec_valid_id(#[trigger] ks[k])
}

/// Whether one case's metadata is acceptable: a stable ID, a nonblank name of at most 1024
/// bytes, at most 256 inputs and 128 assertions keyed by stable IDs, at most 262144 text
/// units in all, and integer assertions in the integer domain.
pub open spec fn project_case_ok(c: ProjectCase) -> bool {
    &&& spec_valid_id(c.id@)
    &&& nonblank(c.name@)
    &&& utf8_len(c.name@) <= 1024
    &&& c.inputs.keys().len() <= MAX_INPUTS
    &&& c.expected.keys().len() <= MAX_POLICIES
    &&& ids_valid(c.inputs.keys())
    &&& ids_valid(c.expected.keys())
    &&& case_units(c) <= MAX_INPUT_TEXT_UNITS
    &&& forall|t: int| 0 <= t < c.expected.values().len() ==>
        ((#[trigger] c.expected.values()[t])@ matches ValueModel::Int(n) ==> in_domain(n as int))
}

/// Text units of a whole suite.
pub open spec fn cases_units(cs: Seq<ProjectCase>) -> nat
    decreases cs.len(),
{
    if cs.len() == 0 { 0 } else { cases_units(cs.drop_last()) + case_units(cs.last()) }
}

/// Whether a suite's metadata is acceptable: at most 64 acceptable cases with distinct IDs
/// and at most 1048576 text units in all.
pub open spec fn project_cases_ok(cs: Seq<ProjectCase>) -> bool {
    &&& cs.len() <= MAX_PROJECT_CASES
    &&& forall|i: int| 0 <= i < cs.len() ==> project_case_ok(#[trigger] cs[i])
    &&& forall|i: int, j: int| 0 <= i < j < cs.len() ==> (#[trigger] cs[i]).id@ != (#[trigger] cs[j]).id@
    &&& cases_units(cs) <= 1_048_576
}

fn case_schema_error() -> (e: ProjectError)
    ensures e.code == "PROJECT_CASE_SCHEMA",
{
    ProjectError::new("PROJECT_CASE_SCHEMA", None,
        String::from_str("Invalid/duplicate case metadata, expected value or case payload budget."))
}

/// Text units of `prefix` followed by the values of `m`, if at most 262144.
fn add_units(m: &InputBindings, start: usize, Ghost(prefix): Ghost<Seq<ValueModel>>) -> (r: Option<usize>)
    requires start == values_units(prefix), start <= MAX_INPUT_TEXT_UNITS,
    ensures
        match r {
            Some(n) => n == values_units(prefix + bindings_view(*m).1) && n <= MAX_INPUT_TEXT_UNITS,
            None => values_units(prefix + bindings_view(*m).1) > MAX_INPUT_TEXT_UNITS,
        },
{
    let entries = m.entries();
    let ghost vals = bindings_view(*m).1;
    let mut n: usize = start;
    let mut i: usize = 0;
    while i < entries.len()
        invariant
            i <= entries@.len(), entries@.len() == m.keys().len(), m.keys().len() == m.values().len(),
            vals == m.values().map_values(|v: Value| v@),
            forall|j: int| 0 <= j < entries@.len() ==> (#[trigger] entries@[j]).1 == m.values()[j],
            n == values_units(prefix + vals.take(i as int)), n <= MAX_INPUT_TEXT_UNITS,
        decreases entries@.len() - i,
    {
        proof {
            assert(prefix + vals.take(i + 1) =~= (prefix + vals.take(i as int)).push(vals[i as int]));
            lemma_values_units_push(prefix + vals.take(i as int), vals[i as int]);
            assert(entries@[i as int].1 == m.values()[i as int]);
        }
        let u = entries[i].1.text_units();
        if u > MAX_INPUT_TEXT_UNITS - n {
            proof {
                let all = prefix + vals;
                assert(all.take(prefix.len() + i + 1) =~= prefix + vals.take(i + 1));
                lemma_prefix_units(all, prefix.len() + i + 1);
            }
            return None;
        }
        n = n + u;
        i += 1;
    }
    assert(vals.take(entries@.len() as int) =~= vals);
    Some(n)
}

fn keys_valid(m: &InputBindings) -> (r: bool)
    ensures r == ids_valid(m.keys()),
{
    let entries = m.entries();
    let mut k: usize = 0;
    while k < entries.len()
        invariant
            k <= entries@.len(), entries@.len() == m.keys().len(),
            forall|j: int| 0 <= j < entries@.len() ==> (#[trigger] entries@[j]).0@ == m.keys()[j],
            forall|j: int| 0 <= j < k ==> spec_valid_id(#[trigger] m.keys()[j]),
        decreases entries@.len() - k,
    {
        if !valid_id(entries[k].0.as_str()) {
            assert(entries@[k as int].0@ == m.keys()[k as int]);
            return false;
        }
        assert(entries@[k as int].0@ == m.keys()[k as int]);
        k += 1;
    }
    true
}

fn ints_in_domain(m: &InputBindings) -> (r: bool)
    ensures r == forall|t: int| 0 <= t < m.values().len() ==>
        ((#[trigger] m.values()[t])@ matches ValueModel::Int(n) ==> in_domain(n as int)),
{
    let entries = m.entries();
    let mut k: usize = 0;
    while k < entries.len()
        invariant
            k <= entries@.len(), entries@.len() == m.values().len(),
            forall|j: int| 0 <= j < entries@.len() ==> (#[trigger] entries@[j]).1 == m.values()[j],
            forall|j: int| 0 <= j < k ==> ((#[trigger] m.values()[j])@ matches ValueModel::Int(n) ==> in_domain(n as int)),
        decreases entries@.len() - k,
    {
        assert(entries@[k as int].1 == m.values()[k as int]);
        match &entries[k].1 {
            Value::Int(n) => {
                if *n < -crate::MAX_INT || *n > crate::MAX_INT {
                    return false;
                }
            }
            _ => {}
        }
        k += 1;
    }
    true
}

fn name_nonblank(name: &str) -> (r: bool)
    ensures r == nonblank(name@),
{
    let cs = chars_of(name);
    let mut i: usize = 0;
    while i < cs.len()
        invariant i <= cs@.len(), cs@ == name@, forall|j: int| 0 <= j < i ==> is_unicode_space(#[trigger] cs@[j]),
        decreases cs@.len() - i,
    {
        if !unicode_space(cs[i]) {
            return true;
        }
        i += 1;
    }
    false
}

/// Checks one case's metadata; its text units when acceptable.
fn check_case(case: &ProjectCase) -> (r: Option<usize>)
    ensures
        r is Some <==> project_case_ok(*case),
        r matches Some(n) ==> n == case_units(*case),
{
    if !valid_id(case.id.as_str()) || !name_nonblank(case.name.as_str()) {
        return None;
    }
    let name = chars_of(case.name.as_str());
    if count_utf8_bounded(name.as_slice(), 1024).is_none() {
        return None;
    }
    if case.inputs.len() > MAX_INPUTS || case.expected.len() > MAX_POLICIES {
        return None;
    }
    if !keys_valid(&case.inputs) || !keys_valid(&case.expected) {
        return None;
    }
    let first = match add_units(&case.inputs, 0, Ghost(Seq::empty())) {
        Some(n) => n,
        None => {
            assert(Seq::<ValueModel>::empty() + bindings_view(case.inputs).1 =~= bindings_view(case.inputs).1);
            proof {
                let all = bindings_view(case.inputs).1 + bindings_view(case.expected).1;
                assert(all.take(bindings_view(case.inputs).1.len() as int) =~= bindings_view(case.inputs).1);
                lemma_prefix_units(all, bindings_view(case.inputs).1.len() as int);
            }
            return None;
        }
    };
    assert(Seq::<ValueModel>::empty() + bindings_view(case.inputs).1 =~= bindings_view(case.inputs).1);
    let total = match add_units(&case.expected, first, Ghost(bindings_view(case.inputs).1)) {
        Some(n) => n,
        None => { return None; }
    };
    if !ints_in_domain(&case.expected) {
        return None;
    }
    Some(total)
}

/// Text units never shrink as a suite grows.
proof fn lemma_cases_prefix(cs: Seq<ProjectCase>, n: int)
    requires 0 <= n <= cs.len(),
    ensures cases_units(cs.take(n)) <= cases_units(cs),
    decreases cs.len() - n,
{
    if n < cs.len() {
        assert(cs.take(n + 1).drop_last() =~= cs.take(n));
        lemma_cases_prefix(cs, n + 1);
    } else {
        assert(cs.take(n) =~= cs);
    }
}

/// Validates a suite's metadata before anything runs; its text units when acceptable.
fn validate_cases(cases: &[ProjectCase]) -> (r: Result<usize, ProjectError>)
    ensures
        r is Ok <==> project_cases_ok(cases@),
        r matches Ok(n) ==> n == cases_units(cases@),
        r matches Err(e) ==> e.code == "PROJECT_CASE_SCHEMA",
{
    if cases.len() > MAX_PROJECT_CASES {
        return Err(case_schema_error());
    }
    let mut total: usize = 0;
    let mut i: usize = 0;
    while i < cases.len()
        invariant
            i <= cases@.len(), cases@.len() <= MAX_PROJECT_CASES,
            forall|j: int| 0 <= j < i ==> project_case_ok(#[trigger] cases@[j]),
            forall|a: int, b: int| 0 <= a < b < i ==> (#[trigger] cases@[a]).id@ != (#[trigger] cases@[b]).id@,
            total == cases_units(cases@.take(i as int)), total <= 1_048_576,
        decreases cases@.len() - i,
    {
        let case = &cases[i];
        let mut duplicate = false;
        let mut j: usize = 0;
        while j < i
            invariant
                j <= i, i < cases@.len(), case.id@ == cases@[i as int].id@,
                duplicate ==> exists|a: int| 0 <= a < i && (#[trigger] cases@[a]).id@ == cases@[i as int].id@,
                !duplicate ==> forall|a: int| 0 <= a < j ==> (#[trigger] cases@[a]).id@ != cases@[i as int].id@,
            decreases i - j,
        {
            if !duplicate && str_equal(cases[j].id.as_str(), case.id.as_str()) {
                duplicate = true;
                assert(cases@[j as int].id@ == cases@[i as int].id@);
            }
            j += 1;
        }
        if duplicate {
            return Err(case_schema_error());
        }
        let units = match check_case(case) {
            Some(n) => n,
            None => { return Err(case_schema_error()); }
        };
        proof {
            assert(cases@.take(i + 1).drop_last() =~= cases@.take(i as int));
        }
        if units > 1_048_576 - total {
            proof { lemma_cases_prefix(cases@, i + 1); }
            return Err(case_schema_error());
        }
        total = total + units;
        i += 1;
    }
    assert(cases@.take(cases@.len() as int) =~= cases@);
    Ok(total)
}

/// The IDs of cases, in order.
pub open spec fn project_case_ids(s: Seq<ProjectCase>) -> Seq<Seq<char>> {
    s.map_values(|c: ProjectCase| c.id@)
}

/// The case with ID `id`, if any.
pub open spec fn find_project_case(s: Seq<ProjectCase>, id: Seq<char>) -> Option<ProjectCase> {
    if project_case_ids(s).contains(id) { Some(s[project_case_ids(s).index_of(id)]) } else { None }
}

/// What changed of one case.
pub open spec fn project_case_kinds(a: Option<ProjectCase>, b: Option<ProjectCase>) -> Seq<&'static str> {
    match (a, b) {
        (Some(x), Some(y)) => (if x.name@ != y.name@ { seq!["renamed"] } else { Seq::empty() })
            + (if bindings_view(x.inputs) != bindings_view(y.inputs) { seq!["inputs-changed"] } else { Seq::empty() })
            + (if bindings_view(x.expected) != bindings_view(y.expected) { seq!["expectations-changed"] } else { Seq::empty() }),
        (None, Some(_)) => seq!["added"],
        (Some(_), None) => seq!["removed"],
        (None, None) => Seq::empty(),
    }
}

pub open spec fn project_case_kinds_of(before: Seq<ProjectCase>, after: Seq<ProjectCase>) -> spec_fn(Seq<char>) -> Seq<&'static str> {
    |id: Seq<char>| project_case_kinds(find_project_case(before, id), find_project_case(after, id))
}

/// Case changes between two suites, by ID in increasing order.
pub open spec fn case_changes_spec(before: Seq<ProjectCase>, after: Seq<ProjectCase>) -> Seq<(&'static str, Seq<char>, &'static str)> {
    scoped("case", tagged(sorted_union(project_case_ids(before), project_case_ids(after)), project_case_kinds_of(before, after)))
}

fn case_id_list(s: &[ProjectCase]) -> (r: Vec<String>)
    ensures string_views(r@) == project_case_ids(s@),
{
    let mut r: Vec<String> = Vec::new();
    let mut i: usize = 0;
    while i < s.len()
        invariant i <= s@.len(), r@.len() == i, forall|j: int| 0 <= j < i ==> (#[trigger] r@[j])@ == s@[j].id@,
        decreases s@.len() - i,
    {
        r.push(s[i].id.clone());
        i += 1;
    }
    assert(string_views(r@) =~= project_case_ids(s@));
    r
}

/// Position of the case with ID `id` in a suite with distinct IDs.
fn position_case(s: &[ProjectCase], id: &str) -> (r: Option<usize>)
    requires forall|i: int, j: int| 0 <= i < j < s@.len() ==> (#[trigger] s@[i]).id@ != (#[trigger] s@[j]).id@,
    ensures
        match r {
            Some(i) => i < s@.len() && find_project_case(s@, id@) == Some(s@[i as int]),
            None => find_project_case(s@, id@) is None,
        },
{
    let ghost ids = project_case_ids(s@);
    let mut i: usize = 0;
    while i < s.len()
        invariant
            i <= s@.len(), ids == project_case_ids(s@), forall|j: int| 0 <= j < i ==> (#[trigger] s@[j]).id@ != id@,
            forall|a: int, b: int| 0 <= a < b < s@.len() ==> (#[trigger] s@[a]).id@ != (#[trigger] s@[b]).id@,
        decreases s@.len() - i,
    {
        if str_equal(s[i].id.as_str(), id) {
            proof {
                assert(ids[i as int] == id@);
                assert(ids.contains(id@));
                let c = ids.index_of(id@);
                assert(ids[c] == id@);
                if c != i {
                    if c < i { assert(s@[c].id@ != s@[i as int].id@); } else { assert(s@[i as int].id@ != s@[c].id@); }
                }
            }
            return Some(i);
        }
        i += 1;
    }
    proof {
        if ids.contains(id@) {
            let c = choose|c: int| 0 <= c < ids.len() && ids[c] == id@;
            assert(s@[c].id@ == id@);
        }
    }
    None
}

/// Case changes between two suites.
fn compare_cases(before: &[ProjectCase], after: &[ProjectCase]) -> (r: Vec<ProjectChange>)
    requires project_cases_ok(before@), project_cases_ok(after@),
    ensures project_changes_view(r@) == case_changes_spec(before@, after@),
{
    let a = case_id_list(before);
    let b = case_id_list(after);
    let ids = union_of(&a, &b);
    let ghost idv = string_views(ids@);
    let ghost kinds = project_case_kinds_of(before@, after@);
    let mut out: Vec<ProjectChange> = Vec::new();
    proof {
        lemma_sorted_union(project_case_ids(before@), project_case_ids(after@), idv);
        assert(idv.take(0) =~= Seq::<Seq<char>>::empty());
        lemma_scoped("case", Seq::empty(), Seq::empty());
        assert(project_changes_view(out@) =~= Seq::empty() + scoped("case", tagged(idv.take(0), kinds)));
    }
    let mut i: usize = 0;
    while i < ids.len()
        invariant
            i <= ids@.len(), idv == string_views(ids@),
            project_cases_ok(before@), project_cases_ok(after@),
            kinds == project_case_kinds_of(before@, after@),
            project_changes_view(out@) == Seq::empty() + scoped("case", tagged(idv.take(i as int), kinds)),
        decreases ids@.len() - i,
    {
        let id = &ids[i];
        let ghost start = project_changes_view(out@);
        proof { lemma_no_kinds("case", id@, start); }
        match (position_case(before, id.as_str()), position_case(after, id.as_str())) {
            (Some(p), Some(q)) => {
                let x = &before[p];
                let y = &after[q];
                let d1 = !str_equal(x.name.as_str(), y.name.as_str());
                note(&mut out, "case", id, "renamed", d1, Ghost(start), Ghost(Seq::empty()));
                let ghost k1: Seq<&'static str> = Seq::empty() + (if d1 { seq!["renamed"] } else { Seq::<&'static str>::empty() });
                let d2 = !x.inputs.same(&y.inputs);
                note(&mut out, "case", id, "inputs-changed", d2, Ghost(start), Ghost(k1));
                let ghost k2: Seq<&'static str> = k1 + (if d2 { seq!["inputs-changed"] } else { Seq::<&'static str>::empty() });
                let d3 = !x.expected.same(&y.expected);
                note(&mut out, "case", id, "expectations-changed", d3, Ghost(start), Ghost(k2));
                assert(kinds(id@) =~= k2 + (if d3 { seq!["expectations-changed"] } else { Seq::<&'static str>::empty() }));
            }
            (None, Some(_)) => {
                note(&mut out, "case", id, "added", true, Ghost(start), Ghost(Seq::empty()));
                assert(kinds(id@) =~= Seq::<&'static str>::empty() + seq!["added"]);
            }
            (Some(_), None) => {
                note(&mut out, "case", id, "removed", true, Ghost(start), Ghost(Seq::empty()));
                assert(kinds(id@) =~= Seq::<&'static str>::empty() + seq!["removed"]);
            }
            (None, None) => {
                assert(kinds(id@) =~= Seq::<&'static str>::empty());
            }
        }
        proof {
            assert(idv[i as int] == id@);
            assert(project_changes_view(out@) == start + scoped("case", tag(id@, kinds(id@))));
            lemma_scope_step("case", idv, i as int, kinds, Seq::empty());
        }
        i += 1;
    }
    assert(idv.take(ids@.len() as int) =~= idv);
    assert(project_changes_view(out@) =~= scoped("case", tagged(idv, kinds)));
    out
}

/// Whether a run error means the review cannot be complete: cancellation or an exhausted
/// execution budget.
pub open spec fn incomplete(e: ProjectError) -> bool {
    ||| e.code@ == "CANCELLED"@
    ||| e.code@ == "PROJECT_BUDGET"@
    ||| (e.diagnostic matches Some(d) && (d.code@ == "CANCELLED"@ || d.code@ == "STEP_LIMIT"@
        || d.code@ == "DEPTH_LIMIT"@ || d.code@ == "TRACE_LIMIT"@ || d.code@ == "TRACE_VALUE_LIMIT"@))
}

fn is_incomplete(e: &ProjectError) -> (r: bool)
    ensures r == incomplete(*e),
{
    if str_equal(e.code, "CANCELLED") || str_equal(e.code, "PROJECT_BUDGET") {
        return true;
    }
    match &e.diagnostic {
        Some(d) => str_equal(d.code, "CANCELLED") || str_equal(d.code, "STEP_LIMIT") || str_equal(d.code, "DEPTH_LIMIT")
            || str_equal(d.code, "TRACE_LIMIT") || str_equal(d.code, "TRACE_VALUE_LIMIT"),
        None => false,
    }
}

/// The asserted policy IDs, among the first `n`, whose computed value is missing or differs.
pub open spec fn failed_upto(expected: InputBindings, values: InputBindings, n: int) -> Seq<Seq<char>>
    decreases n,
{
    if n <= 0 {
        Seq::empty()
    } else {
        let rest = failed_upto(expected, values, n - 1);
        let k = expected.keys()[n - 1];
        if values.has(k) && values.at(k)@ == expected.values()[n - 1]@ { rest } else { rest.push(k) }
    }
}

/// The verdict of a run against a case's assertions, and the assertions that failed.
pub open spec fn case_status(result: Result<InputBindings, ProjectError>, expected: InputBindings) -> (CaseStatus, Seq<Seq<char>>) {
    match result {
        Err(_) => (CaseStatus::ExecutionError, Seq::empty()),
        Ok(values) => if expected.keys().len() == 0 {
            (CaseStatus::NoExpectations, Seq::empty())
        } else {
            let failed = failed_upto(expected, values, expected.keys().len() as int);
            (if failed.len() == 0 { CaseStatus::Passed } else { CaseStatus::Mismatch }, failed)
        },
    }
}

fn judge(result: &Result<InputBindings, ProjectError>, expected: &InputBindings) -> (r: (CaseStatus, Vec<String>))
    ensures (r.0, string_views(r.1@)) == case_status(*result, *expected),
{
    match result {
        Err(_) => (CaseStatus::ExecutionError, Vec::new()),
        Ok(values) => {
            if expected.is_empty() {
                return (CaseStatus::NoExpectations, Vec::new());
            }
            let entries = expected.entries();
            let mut failed: Vec<String> = Vec::new();
            let mut i: usize = 0;
            while i < entries.len()
                invariant
                    i <= entries@.len(), entries@.len() == expected.keys().len(), expected.keys().len() == expected.values().len(),
                    forall|j: int| 0 <= j < entries@.len() ==> (#[trigger] entries@[j]).0@ == expected.keys()[j] && entries@[j].1 == expected.values()[j],
                    string_views(failed@) == failed_upto(*expected, *values, i as int),
                decreases entries@.len() - i,
            {
                assert(entries@[i as int].0@ == expected.keys()[i as int] && entries@[i as int].1 == expected.values()[i as int]);
                let ok = match values.get(entries[i].0.as_str()) {
                    Some(v) => v.same(&entries[i].1),
                    None => false,
                };
                if !ok {
                    let ghost before = failed@;
                    failed.push(entries[i].0.clone());
                    assert(string_views(failed@) =~= string_views(before).push(expected.keys()[i as int]));
                }
                i += 1;
            }
            let status = if failed.len() == 0 { CaseStatus::Passed } else { CaseStatus::Mismatch };
            (status, failed)
        }
    }
}

/// Steps, events and text units spent by the first `k` results.
pub open spec fn spent_steps(rs: Seq<ProjectCaseResult>, k: int) -> int
    decreases k,
{
    if k <= 0 { 0 } else { spent_steps(rs, k - 1) + rs[k - 1].spec_run().spec_steps() }
}

pub open spec fn spent_events(rs: Seq<ProjectCaseResult>, k: int) -> int
    decreases k,
{
    if k <= 0 { 0 } else { spent_events(rs, k - 1) + rs[k - 1].spec_run().spec_events() }
}

pub open spec fn spent_text(rs: Seq<ProjectCaseResult>, k: int) -> int
    decreases k,
{
    if k <= 0 { 0 } else { spent_text(rs, k - 1) + rs[k - 1].spec_run().spec_text_units() }
}

/// The budgets of one case run: the review's execution limits, capped by what remains of
/// the aggregate budgets after `steps`, `events` and `text` were spent.
pub open spec fn case_limits(l: ProjectReviewLimits, steps: int, events: int, text: int) -> ProjectLimits {
    ProjectLimits {
        per_policy: l.execution.per_policy,
        max_steps: if l.execution.max_steps <= l.max_steps - steps { l.execution.max_steps } else { (l.max_steps - steps) as usize },
        max_events: if l.execution.max_events <= l.max_events - events { l.execution.max_events } else { (l.max_events - events) as usize },
        max_text_units: if l.execution.max_text_units <= l.max_text_units - text { l.execution.max_text_units }
            else { (l.max_text_units - text) as usize },
        retain_trace: l.execution.retain_trace,
    }
}

/// Whether `r` is the complete run of case `c` against `p` with budgets `pl`, judged
/// against the case's assertions.
#[verifier::opaque]
pub open spec fn case_result_ok(p: CompiledProject, c: ProjectCase, pl: ProjectLimits, r: ProjectCaseResult) -> bool {
    &&& project_case_view(r.spec_case()) == project_case_view(c)
    &&& project_run_ok(p, c.inputs, pl, r.spec_run())
    &&& !(r.spec_run().spec_result() matches Err(e) && incomplete(e))
    &&& (r.spec_status(), r.spec_failed()) == case_status(r.spec_run().spec_result(), c.expected)
}

/// Whether `r` is the run of case `c` against `p`, started while aggregate steps and events
/// remained, with `steps`, `events` and `text` spent before it.
#[verifier::opaque]
pub open spec fn run_in_budget(p: CompiledProject, c: ProjectCase, l: ProjectReviewLimits, steps: int, events: int, text: int,
    r: ProjectCaseResult) -> bool
{
    &&& steps < l.max_steps && events < l.max_events
    &&& case_result_ok(p, c, case_limits(l, steps, events, text), r)
}

/// Whether `rs` are the runs of `cs` against `p`, in order, on one budget with `steps`,
/// `events` and `text` spent before the first.
pub open spec fn suite_ok(p: CompiledProject, cs: Seq<ProjectCase>, l: ProjectReviewLimits, steps: int, events: int,
    text: int, rs: Seq<ProjectCaseResult>) -> bool
{
    &&& rs.len() == cs.len()
    &&& forall|i: int| 0 <= i < rs.len() ==>
        run_in_budget(p, cs[i], l, steps + spent_steps(rs, i), events + spent_events(rs, i), text + spent_text(rs, i), #[trigger] rs[i])
}

/// The aggregate budget a review spends across its suites.
struct Budget {
    limits: ProjectReviewLimits,
    steps: usize,
    events: usize,
    text: usize,
}

spec fn budget_ok(b: Budget) -> bool {
    &&& review_limits_ok(b.limits)
    &&& b.steps <= b.limits.max_steps + 1
    &&& b.events <= b.limits.max_events
    &&& b.text <= b.limits.max_text_units
}

proof fn lemma_spent_push(rs: Seq<ProjectCaseResult>, x: ProjectCaseResult, k: int)
    requires 0 <= k <= rs.len(),
    ensures
        spent_steps(rs.push(x), k) == spent_steps(rs, k),
        spent_events(rs.push(x), k) == spent_events(rs, k),
        spent_text(rs.push(x), k) == spent_text(rs, k),
    decreases k,
{
    if k > 0 {
        lemma_spent_push(rs, x, k - 1);
        assert(rs.push(x)[k - 1] == rs[k - 1]);
    }
}

fn review_incomplete() -> (e: ProjectError)
    ensures e.code == "REVIEW_INCOMPLETE",
{
    ProjectError::new("REVIEW_INCOMPLETE", None,
        String::from_str("Review cancelled or exhausted an execution/aggregate budget; no complete review."))
}

/// Spending recorded for a prefix does not change when a result is appended.
proof fn lemma_spent_push_all(rs: Seq<ProjectCaseResult>, x: ProjectCaseResult)
    ensures
        forall|j: int| 0 <= j <= rs.len() ==> #[trigger] spent_steps(rs.push(x), j) == spent_steps(rs, j),
        forall|j: int| 0 <= j <= rs.len() ==> #[trigger] spent_events(rs.push(x), j) == spent_events(rs, j),
        forall|j: int| 0 <= j <= rs.len() ==> #[trigger] spent_text(rs.push(x), j) == spent_text(rs, j),
{
    assert forall|j: int| 0 <= j <= rs.len() implies #[trigger] spent_steps(rs.push(x), j) == spent_steps(rs, j) by {
        lemma_spent_push(rs, x, j);
    }
    assert forall|j: int| 0 <= j <= rs.len() implies #[trigger] spent_events(rs.push(x), j) == spent_events(rs, j) by {
        lemma_spent_push(rs, x, j);
    }
    assert forall|j: int| 0 <= j <= rs.len() implies #[trigger] spent_text(rs.push(x), j) == spent_text(rs, j) by {
        lemma_spent_push(rs, x, j);
    }
}

/// Extending a suite by the run of its next case.
proof fn lemma_suite_push(p: CompiledProject, cases: Seq<ProjectCase>, l: ProjectReviewLimits, s0: int, e0: int, t0: int,
    before: Seq<ProjectCaseResult>, item: ProjectCaseResult, i: int)
    requires
        0 <= i < cases.len(), before.len() == i,
        suite_ok(p, cases.take(i), l, s0, e0, t0, before),
        run_in_budget(p, cases[i], l, s0 + spent_steps(before, i), e0 + spent_events(before, i), t0 + spent_text(before, i), item),
    ensures
        suite_ok(p, cases.take(i + 1), l, s0, e0, t0, before.push(item)),
        spent_steps(before.push(item), i + 1) == spent_steps(before, i) + item.spec_run().spec_steps(),
        spent_events(before.push(item), i + 1) == spent_events(before, i) + item.spec_run().spec_events(),
        spent_text(before.push(item), i + 1) == spent_text(before, i) + item.spec_run().spec_text_units(),
{
    let after = before.push(item);
    let cs = cases.take(i + 1);
    lemma_spent_push_all(before, item);
    assert forall|j: int| 0 <= j < after.len() implies
        run_in_budget(p, cs[j], l, s0 + spent_steps(after, j), e0 + spent_events(after, j), t0 + spent_text(after, j),
            #[trigger] after[j]) by {
        assert(spent_steps(after, j) == spent_steps(before, j));
        assert(spent_events(after, j) == spent_events(before, j));
        assert(spent_text(after, j) == spent_text(before, j));
        if j < i {
            assert(after[j] == before[j]);
            assert(cs[j] == cases.take(i)[j]);
        } else {
            assert(after[j] == item);
            assert(cs[j] == cases[i]);
        }
    }
    assert(spent_steps(after, i) == spent_steps(before, i));
    assert(spent_events(after, i) == spent_events(before, i));
    assert(spent_text(after, i) == spent_text(before, i));
}

/// Whether the run of case `c` cannot complete on what remains of the review budget, with
/// `steps`, `events` and `text` spent before it: no steps or events remain, or a run on the
/// remaining budget stops short.
pub open spec fn case_cut_short(p: CompiledProject, c: ProjectCase, l: ProjectReviewLimits, steps: int, events: int, text: int) -> bool {
    ||| steps >= l.max_steps
    ||| events >= l.max_events
    ||| exists|run: ProjectRun| #[trigger] project_run_ok(p, c.inputs, case_limits(l, steps, events, text), run)
        && (run.spec_result() matches Err(e) && incomplete(e))
}

/// Whether some case of `cs`, run in order from `steps`, `events` and `text` spent, is cut
/// short after the cases before it completed.
pub open spec fn suite_cut_short(p: CompiledProject, cs: Seq<ProjectCase>, l: ProjectReviewLimits, steps: int, events: int,
    text: int) -> bool
{
    exists|i: int, rs: Seq<ProjectCaseResult>| 0 <= i < cs.len() && #[trigger] suite_ok(p, cs.take(i), l, steps, events, text, rs)
        && case_cut_short(p, cs[i], l, steps + spent_steps(rs, i), events + spent_events(rs, i), text + spent_text(rs, i))
}

/// Whether a review runs out of its budget: the old cases on the baseline are cut short, or
/// they complete and the new cases on the candidate are cut short, or both complete and the
/// replay of the old cases on the candidate is cut short.
pub open spec fn review_cut_short(baseline: CompiledProject, candidate: CompiledProject, old_cases: Seq<ProjectCase>,
    new_cases: Seq<ProjectCase>, l: ProjectReviewLimits) -> bool
{
    ||| suite_cut_short(baseline, old_cases, l, 0, 0, 0)
    ||| exists|bs: Seq<ProjectCaseResult>| #[trigger] suite_ok(baseline, old_cases, l, 0, 0, 0, bs) && ({
        let s1 = spent_steps(bs, bs.len() as int);
        let e1 = spent_events(bs, bs.len() as int);
        let t1 = spent_text(bs, bs.len() as int);
        ||| suite_cut_short(candidate, new_cases, l, s1, e1, t1)
        ||| exists|cs: Seq<ProjectCaseResult>| #[trigger] suite_ok(candidate, new_cases, l, s1, e1, t1, cs)
            && suite_cut_short(candidate, old_cases, l, s1 + spent_steps(cs, cs.len() as int),
                e1 + spent_events(cs, cs.len() as int), t1 + spent_text(cs, cs.len() as int))
    })
}

fn cancelled(token: Option<&CancellationToken>) -> (r: bool)
    ensures token is None ==> !r,
{
    match token { Some(t) => t.is_cancelled(), None => false }
}

impl Budget {
    /// Runs one case against `project` on what remains of this budget.
    fn run_case(&mut self, project: &Arc<CompiledProject>, case: &ProjectCase, token: Option<&CancellationToken>)
        -> (r: Result<ProjectCaseResult, ProjectError>)
        requires budget_ok(*old(self)),
        ensures
            budget_ok(*final(self)), final(self).limits == old(self).limits,
            r matches Ok(x) ==> run_in_budget(**project, *case, old(self).limits, old(self).steps as int, old(self).events as int,
                    old(self).text as int, x)
                && final(self).steps == old(self).steps + x.spec_run().spec_steps()
                && final(self).events == old(self).events + x.spec_run().spec_events()
                && final(self).text == old(self).text + x.spec_run().spec_text_units(),
            r matches Err(e) ==> e.code == "REVIEW_INCOMPLETE",
            token is None && r is Err ==> case_cut_short(**project, *case, old(self).limits, old(self).steps as int,
                old(self).events as int, old(self).text as int),
    {
        if cancelled(token) || self.steps >= self.limits.max_steps || self.events >= self.limits.max_events {
            return Err(review_incomplete());
        }
        let l = self.limits.execution;
        let steps_left = self.limits.max_steps - self.steps;
        let events_left = self.limits.max_events - self.events;
        let text_left = self.limits.max_text_units - self.text;
        let limits = ProjectLimits {
            per_policy: l.per_policy,
            max_steps: if l.max_steps <= steps_left { l.max_steps } else { steps_left },
            max_events: if l.max_events <= events_left { l.max_events } else { events_left },
            max_text_units: if l.max_text_units <= text_left { l.max_text_units } else { text_left },
            retain_trace: l.retain_trace,
        };
        assert(limits == case_limits(self.limits, self.steps as int, self.events as int, self.text as int));
        let (run, _) = execute_with(project, &case.inputs, limits, token, Ignore::new());
        let ghost (s0, e0, t0) = (self.steps as int, self.events as int, self.text as int);
        self.steps = self.steps + run.steps();
        self.events = self.events + run.emitted_events();
        self.text = self.text + run.observed_text_units();
        match run.result() {
            Err(e) => {
                if is_incomplete(e) {
                    proof {
                        assert(project_run_ok(**project, case.inputs, case_limits(self.limits, s0, e0, t0), run));
                    }
                    return Err(review_incomplete());
                }
            }
            Ok(_) => {}
        }
        let (status, failed_assertions) = judge(run.result(), &case.expected);
        let item = ProjectCaseResult { case: case.duplicate(), run, status, failed_assertions };
        proof { reveal(case_result_ok); reveal(run_in_budget); }
        Ok(item)
    }

    /// Runs every case against `project`, spending this budget.
    fn run(&mut self, project: &Arc<CompiledProject>, cases: &[ProjectCase], token: Option<&CancellationToken>)
        -> (r: Result<Vec<ProjectCaseResult>, ProjectError>)
        requires budget_ok(*old(self)),
        ensures
            budget_ok(*final(self)), final(self).limits == old(self).limits,
            r matches Ok(rs) ==> suite_ok(**project, cases@, old(self).limits, old(self).steps as int, old(self).events as int,
                old(self).text as int, rs@)
                && final(self).steps == old(self).steps + spent_steps(rs@, rs@.len() as int)
                && final(self).events == old(self).events + spent_events(rs@, rs@.len() as int)
                && final(self).text == old(self).text + spent_text(rs@, rs@.len() as int),
            r matches Err(e) ==> e.code == "REVIEW_INCOMPLETE",
            token is None && r is Err ==> suite_cut_short(**project, cases@, old(self).limits, old(self).steps as int,
                old(self).events as int, old(self).text as int),
    {
        let ghost s0 = self.steps as int;
        let ghost e0 = self.events as int;
        let ghost t0 = self.text as int;
        let pr: &CompiledProject = &**project;
        let mut results: Vec<ProjectCaseResult> = Vec::new();
        let mut i: usize = 0;
        while i < cases.len()
            invariant
                i <= cases@.len(), budget_ok(*self), self.limits == old(self).limits,
                s0 == old(self).steps, e0 == old(self).events, t0 == old(self).text,
                self.steps == s0 + spent_steps(results@, i as int),
                self.events == e0 + spent_events(results@, i as int),
                self.text == t0 + spent_text(results@, i as int),
                suite_ok(*pr, cases@.take(i as int), self.limits, s0, e0, t0, results@), *pr == **project,
            decreases cases@.len() - i,
        {
            let item = match self.run_case(project, &cases[i], token) {
                Ok(x) => x,
                Err(e) => {
                    proof {
                        if token is None {
                            assert(suite_ok(*pr, cases@.take(i as int), self.limits, s0, e0, t0, results@));
                        }
                    }
                    return Err(e);
                }
            };
            let ghost before = results@;
            proof { lemma_suite_push(*pr, cases@, self.limits, s0, e0, t0, before, item, i as int); }
            results.push(item);
            i += 1;
        }
        assert(cases@.take(cases@.len() as int) =~= cases@);
        Ok(results)
    }
}

/// Whether `r` is the complete review of `candidate` against `baseline`: both projects, their
/// differences, the case changes, the old cases on the baseline, the new cases on the
/// candidate, and the old cases replayed on the candidate, in that order on one budget.
pub open spec fn review_ok(baseline: CompiledProject, candidate: CompiledProject, old_cases: Seq<ProjectCase>,
    new_cases: Seq<ProjectCase>, l: ProjectReviewLimits, r: ProjectReview) -> bool
{
    let bs = r.spec_baseline_results();
    let cs = r.spec_candidate_results();
    let hs = r.spec_historical_results();
    let s1 = spent_steps(bs, bs.len() as int);
    let e1 = spent_events(bs, bs.len() as int);
    let t1 = spent_text(bs, bs.len() as int);
    let s2 = s1 + spent_steps(cs, cs.len() as int);
    let e2 = e1 + spent_events(cs, cs.len() as int);
    let t2 = t1 + spent_text(cs, cs.len() as int);
    &&& r.spec_baseline() == baseline
    &&& r.spec_candidate() == candidate
    &&& difference_ok(baseline, candidate, r.spec_difference())
    &&& project_changes_view(r.spec_case_changes()) == case_changes_spec(old_cases, new_cases)
    &&& suite_ok(baseline, old_cases, l, 0, 0, 0, bs)
    &&& suite_ok(candidate, new_cases, l, s1, e1, t1, cs)
    &&& suite_ok(candidate, old_cases, l, s2, e2, t2, hs)
    &&& r.spec_limits() == l
}

/// Replays the baseline cases, inputs and answers, against the candidate graph even when its own cases
/// are changed or deleted. Metadata and budgets are checked before anything runs; a
/// cancelled or exhausted review returns no partial result.
pub fn review_projects(baseline: &Arc<CompiledProject>, candidate: &Arc<CompiledProject>, old_cases: &[ProjectCase],
    new_cases: &[ProjectCase], limits: ProjectReviewLimits, cancellation: &CancellationToken) -> (r: Result<ProjectReview, ProjectError>)
    ensures
        !project_cases_ok(old_cases@) ==> (r matches Err(e) && e.code == "PROJECT_CASE_SCHEMA"),
        project_cases_ok(old_cases@) && !project_cases_ok(new_cases@) ==> (r matches Err(e) && e.code == "PROJECT_CASE_SCHEMA"),
        project_cases_ok(old_cases@) && project_cases_ok(new_cases@) && cases_units(old_cases@) + cases_units(new_cases@) > 1_048_576
            ==> (r matches Err(e) && e.code == "PROJECT_CASE_SCHEMA"),
        project_cases_ok(old_cases@) && project_cases_ok(new_cases@) && cases_units(old_cases@) + cases_units(new_cases@) <= 1_048_576
            && !review_limits_ok(limits) ==> (r matches Err(e) && e.code == "INVALID_LIMIT"),
        r matches Err(e) ==> e.code == "PROJECT_CASE_SCHEMA" || e.code == "INVALID_LIMIT" || e.code == "REVIEW_INCOMPLETE",
        (r is Ok || (r matches Err(e) && e.code == "REVIEW_INCOMPLETE")) ==> project_cases_ok(old_cases@)
            && project_cases_ok(new_cases@) && cases_units(old_cases@) + cases_units(new_cases@) <= 1_048_576
            && review_limits_ok(limits),
        r matches Ok(v) ==> review_ok(**baseline, **candidate, old_cases@, new_cases@, limits, v),
{
    review_projects_with(baseline, candidate, old_cases, new_cases, limits, Some(cancellation))
}

/// As `review_projects`, with an optional token. Without one, nothing cancels the review, and
/// it runs out of its budget only when `review_cut_short` says so.
pub(crate) fn review_projects_with(baseline: &Arc<CompiledProject>, candidate: &Arc<CompiledProject>, old_cases: &[ProjectCase],
    new_cases: &[ProjectCase], limits: ProjectReviewLimits, token: Option<&CancellationToken>) -> (r: Result<ProjectReview, ProjectError>)
    ensures
        !project_cases_ok(old_cases@) ==> (r matches Err(e) && e.code == "PROJECT_CASE_SCHEMA"),
        project_cases_ok(old_cases@) && !project_cases_ok(new_cases@) ==> (r matches Err(e) && e.code == "PROJECT_CASE_SCHEMA"),
        project_cases_ok(old_cases@) && project_cases_ok(new_cases@) && cases_units(old_cases@) + cases_units(new_cases@) > 1_048_576
            ==> (r matches Err(e) && e.code == "PROJECT_CASE_SCHEMA"),
        project_cases_ok(old_cases@) && project_cases_ok(new_cases@) && cases_units(old_cases@) + cases_units(new_cases@) <= 1_048_576
            && !review_limits_ok(limits) ==> (r matches Err(e) && e.code == "INVALID_LIMIT"),
        r matches Err(e) ==> e.code == "PROJECT_CASE_SCHEMA" || e.code == "INVALID_LIMIT" || e.code == "REVIEW_INCOMPLETE",
        (r is Ok || (r matches Err(e) && e.code == "REVIEW_INCOMPLETE")) ==> project_cases_ok(old_cases@)
            && project_cases_ok(new_cases@) && cases_units(old_cases@) + cases_units(new_cases@) <= 1_048_576
            && review_limits_ok(limits),
        r matches Ok(v) ==> review_ok(**baseline, **candidate, old_cases@, new_cases@, limits, v),
        token is None ==> (r matches Err(e) && e.code == "REVIEW_INCOMPLETE"
            ==> review_cut_short(**baseline, **candidate, old_cases@, new_cases@, limits)),
{
    let old_text = validate_cases(old_cases)?;
    let new_text = validate_cases(new_cases)?;
    if old_text > 1_048_576 - new_text {
        return Err(ProjectError::new("PROJECT_CASE_SCHEMA", None, String::from_str("Combined case payload exceeds the review limit.")));
    }
    limits.execution.validate()?;
    if limits.max_steps == 0 || limits.max_steps > 10_000_000 || limits.max_events == 0 || limits.max_events > 1_000_000
        || limits.max_text_units > 16_777_216 {
        return Err(ProjectError::new("INVALID_LIMIT", None, String::from_str("Invalid aggregate review limits.")));
    }
    if cancelled(token) {
        return Err(ProjectError::new("REVIEW_INCOMPLETE", None, String::from_str("Review cancelled before starting.")));
    }
    let mut budget = Budget { limits, steps: 0, events: 0, text: 0 };
    let baseline_results = match budget.run(baseline, old_cases, token) {
        Ok(rs) => rs,
        Err(e) => { return Err(e); }
    };
    let ghost b1 = budget;
    let candidate_results = match budget.run(candidate, new_cases, token) {
        Ok(rs) => rs,
        Err(e) => {
            proof {
                if token is None {
                    assert(suite_ok(**baseline, old_cases@, limits, 0, 0, 0, baseline_results@));
                }
            }
            return Err(e);
        }
    };
    let historical_results = match budget.run(candidate, old_cases, token) {
        Ok(rs) => rs,
        Err(e) => {
            proof {
                if token is None {
                    let bs = baseline_results@;
                    assert(suite_ok(**baseline, old_cases@, limits, 0, 0, 0, bs));
                    assert(suite_ok(**candidate, new_cases@, limits, spent_steps(bs, bs.len() as int),
                        spent_events(bs, bs.len() as int), spent_text(bs, bs.len() as int), candidate_results@));
                }
            }
            return Err(e);
        }
    };
    let difference = compare_projects(&**baseline, &**candidate);
    let case_changes = compare_cases(old_cases, new_cases);
    Ok(ProjectReview {
        baseline: share(baseline),
        candidate: share(candidate),
        difference,
        case_changes,
        baseline_results,
        candidate_results,
        historical_results,
        limits,
    })
}

/// No ID of `ids` has any kind of change.
proof fn lemma_tagged_empty(ids: Seq<Seq<char>>, kinds: spec_fn(Seq<char>) -> Seq<&'static str>)
    requires forall|i: int| 0 <= i < ids.len() ==> #[trigger] kinds(ids[i]).len() == 0,
    ensures tagged(ids, kinds).len() == 0,
    decreases ids.len(),
{
    if ids.len() > 0 {
        let init = ids.drop_last();
        assert forall|i: int| 0 <= i < init.len() implies #[trigger] kinds(init[i]).len() == 0 by {
            assert(init[i] == ids[i]);
        }
        lemma_tagged_empty(init, kinds);
        assert(kinds(ids[ids.len() - 1]).len() == 0);
        assert(tag(ids.last(), kinds(ids.last())).len() == 0);
    }
}

/// A listed ID's changes appear, each tagged with the ID.
proof fn lemma_tagged_has(ids: Seq<Seq<char>>, kinds: spec_fn(Seq<char>) -> Seq<&'static str>, id: Seq<char>, k: &'static str)
    requires ids.contains(id), kinds(id).contains(k),
    ensures tagged(ids, kinds).contains((id, k)),
    decreases ids.len(),
{
    let init = ids.drop_last();
    let head = tagged(init, kinds);
    let t = tag(ids.last(), kinds(ids.last()));
    assert(tagged(ids, kinds) == head + t);
    if ids.last() == id {
        let ks = kinds(id);
        let m = choose|m: int| 0 <= m < ks.len() && ks[m] == k;
        assert(t[m] == (id, k));
        assert((head + t)[head.len() + m] == (id, k));
    } else {
        let i = choose|i: int| 0 <= i < ids.len() && ids[i] == id;
        assert(i < ids.len() - 1);
        assert(init[i] == id);
        lemma_tagged_has(init, kinds, id, k);
        let m = choose|m: int| 0 <= m < head.len() && head[m] == (id, k);
        assert((head + t)[m] == (id, k));
    }
}

/// Every tagged change is one of its ID's changes.
proof fn lemma_tagged_only(ids: Seq<Seq<char>>, kinds: spec_fn(Seq<char>) -> Seq<&'static str>, id: Seq<char>, k: &'static str)
    requires tagged(ids, kinds).contains((id, k)),
    ensures kinds(id).contains(k),
    decreases ids.len(),
{
    let init = ids.drop_last();
    let head = tagged(init, kinds);
    let t = tag(ids.last(), kinds(ids.last()));
    assert(tagged(ids, kinds) == head + t);
    let m = choose|m: int| 0 <= m < (head + t).len() && (head + t)[m] == (id, k);
    if m < head.len() {
        assert(head[m] == (id, k));
        lemma_tagged_only(init, kinds, id, k);
    } else {
        assert(t[m - head.len()] == (id, k));
        assert(kinds(ids.last())[m - head.len()] == k);
    }
}

/// The changes of one scope carry that scope, and are the scope's changes.
proof fn lemma_scoped_has(scope: &'static str, cs: Seq<(Seq<char>, &'static str)>, c: (&'static str, Seq<char>, &'static str))
    ensures
        scoped(scope, cs).contains(c) ==> c.0 == scope && cs.contains((c.1, c.2)),
        c.0 == scope && cs.contains((c.1, c.2)) ==> scoped(scope, cs).contains(c),
{
    if scoped(scope, cs).contains(c) {
        let m = choose|m: int| 0 <= m < scoped(scope, cs).len() && scoped(scope, cs)[m] == c;
        assert(cs[m] == (c.1, c.2));
    }
    if c.0 == scope && cs.contains((c.1, c.2)) {
        let m = choose|m: int| 0 <= m < cs.len() && cs[m] == (c.1, c.2);
        assert(scoped(scope, cs)[m] == c);
    }
}

/// For an external input that both projects declare, a change is listed under its ID
/// exactly when it is one of the input's changes.
proof fn lemma_input_change_listed(before: CompiledProject, after: CompiledProject, d: ProjectDifference,
    id: Seq<char>, k: &'static str)
    requires
        difference_ok(before, after, d),
        find_owned(before.spec_project().inputs@, id) is Some || find_owned(after.spec_project().inputs@, id) is Some,
    ensures
        project_changes_view(d.changes@).contains(("input", id, k))
            <==> owned_kinds(find_owned(before.spec_project().inputs@, id), find_owned(after.spec_project().inputs@, id)).contains(k),
{
    let fx = find_owned(before.spec_project().inputs@, id);
    let fy = find_owned(after.spec_project().inputs@, id);
    let b = before.spec_project();
    let a = after.spec_project();
    let ms = tagged(sorted_union(module_ids(b.modules@), module_ids(a.modules@)), module_kinds_of(b.modules@, a.modules@));
    let ids = sorted_union(owned_ids(b.inputs@), owned_ids(a.inputs@));
    let os = tagged(ids, owned_kinds_of(b.inputs@, a.inputs@));
    let ps = tagged(sorted_union(policy_ids(b.policies@), policy_ids(a.policies@)), policy_kinds_of(before, after));
    let c = ("input", id, k);
    let all = scoped("module", ms) + scoped("input", os) + scoped("policy", ps);
    assert(project_changes_view(d.changes@) == all);
    reveal_strlit("input");
    reveal_strlit("module");
    reveal_strlit("policy");
    assert("input"@ != "policy"@) by { assert("input"@.len() != "policy"@.len()); }
    assert("input"@ != "module"@) by { assert("input"@.len() != "module"@.len()); }
    assert(owned_kinds_of(b.inputs@, a.inputs@)(id) == owned_kinds(fx, fy));
    lemma_scoped_has("module", ms, c);
    lemma_scoped_has("input", os, c);
    lemma_scoped_has("policy", ps, c);
    if owned_kinds(fx, fy).contains(k) {
        lemma_sorted_union_holds(owned_ids(b.inputs@), owned_ids(a.inputs@));
        assert(owned_ids(b.inputs@).contains(id) || owned_ids(a.inputs@).contains(id));
        lemma_tagged_has(ids, owned_kinds_of(b.inputs@, a.inputs@), id, k);
        let m = choose|m: int| 0 <= m < scoped("input", os).len() && scoped("input", os)[m] == c;
        assert(all[scoped("module", ms).len() as int + m] == c);
    }
    if all.contains(c) {
        let m = choose|m: int| 0 <= m < all.len() && all[m] == c;
        let l1 = scoped("module", ms).len();
        let l2 = scoped("input", os).len();
        if m < l1 {
            assert(scoped("module", ms)[m] == c);
        } else if m < l1 + l2 {
            assert(scoped("input", os)[m - l1] == c);
            lemma_tagged_only(ids, owned_kinds_of(b.inputs@, a.inputs@), id, k);
        } else {
            assert(scoped("policy", ps)[m - l1 - l2] == c);
        }
    }
}

/// Law: changes of an external input are reported. For an external input that both
/// projects declare, `compare_projects` lists under its ID `"type-changed"` exactly when
/// the two declared input types differ (a change of refinement alone, such as
/// `NonNegativeInt` to `PositiveInt`, is a type change), `"renamed"` exactly when the
/// names differ, and `"owner-changed"` exactly when the owning modules differ.
pub proof fn lemma_type_change_reported(before: CompiledProject, after: CompiledProject, d: ProjectDifference,
    id: Seq<char>, x: OwnedInput, y: OwnedInput)
    requires
        difference_ok(before, after, d),
        find_owned(before.spec_project().inputs@, id) == Some(x),
        find_owned(after.spec_project().inputs@, id) == Some(y),
    ensures
        project_changes_view(d.changes@).contains(("input", id, "type-changed")) <==> x.spec.input_type != y.spec.input_type,
        project_changes_view(d.changes@).contains(("input", id, "renamed")) <==> x.spec.name@ != y.spec.name@,
        project_changes_view(d.changes@).contains(("input", id, "owner-changed")) <==> x.module@ != y.module@,
{
    reveal_strlit("type-changed");
    reveal_strlit("owner-changed");
    reveal_strlit("renamed");
    assert("type-changed"@ != "owner-changed"@) by { assert("type-changed"@[0] != "owner-changed"@[0]); }
    assert("type-changed"@ != "renamed"@) by { assert("type-changed"@.len() != "renamed"@.len()); }
    assert("renamed"@ != "owner-changed"@) by { assert("renamed"@.len() != "owner-changed"@.len()); }
    let k1: Seq<&'static str> = if x.module@ != y.module@ { seq!["owner-changed"] } else { Seq::empty() };
    let k2: Seq<&'static str> = if x.spec.name@ != y.spec.name@ { seq!["renamed"] } else { Seq::empty() };
    let k3: Seq<&'static str> = if x.spec.input_type != y.spec.input_type { seq!["type-changed"] } else { Seq::empty() };
    let kinds = owned_kinds(Some(x), Some(y));
    assert(kinds == k1 + k2 + k3);
    assert forall|k: &'static str| #[trigger] kinds.contains(k) <==> (k1.contains(k) || k2.contains(k) || k3.contains(k)) by {
        if kinds.contains(k) {
            let m = choose|m: int| 0 <= m < kinds.len() && kinds[m] == k;
            if m < k1.len() { assert(k1[m] == k); }
            else if m < k1.len() + k2.len() { assert(k2[m - k1.len()] == k); }
            else { assert(k3[m - k1.len() - k2.len()] == k); }
        }
        if k1.contains(k) { let m = choose|m: int| 0 <= m < k1.len() && k1[m] == k; assert(kinds[m] == k); }
        if k2.contains(k) { let m = choose|m: int| 0 <= m < k2.len() && k2[m] == k; assert(kinds[k1.len() + m] == k); }
        if k3.contains(k) { let m = choose|m: int| 0 <= m < k3.len() && k3[m] == k; assert(kinds[k1.len() + k2.len() + m] == k); }
    }
    if x.module@ != y.module@ { assert(k1[0] == "owner-changed"); }
    if x.spec.name@ != y.spec.name@ { assert(k2[0] == "renamed"); }
    if x.spec.input_type != y.spec.input_type { assert(k3[0] == "type-changed"); }
    lemma_input_change_listed(before, after, d, id, "type-changed");
    lemma_input_change_listed(before, after, d, id, "renamed");
    lemma_input_change_listed(before, after, d, id, "owner-changed");
}

/// Law: added and removed external inputs are reported. An external input that only the
/// candidate declares is listed as `("input", its ID, "added")` and as nothing else; one
/// that only the baseline declares is listed as `("input", its ID, "removed")` and as
/// nothing else.
pub proof fn lemma_input_presence_reported(before: CompiledProject, after: CompiledProject, d: ProjectDifference,
    id: Seq<char>, k: &'static str)
    requires
        difference_ok(before, after, d),
        find_owned(before.spec_project().inputs@, id) is Some || find_owned(after.spec_project().inputs@, id) is Some,
    ensures
        find_owned(before.spec_project().inputs@, id) is None ==>
            (project_changes_view(d.changes@).contains(("input", id, k)) <==> k == "added"),
        find_owned(after.spec_project().inputs@, id) is None ==>
            (project_changes_view(d.changes@).contains(("input", id, k)) <==> k == "removed"),
{
    lemma_input_change_listed(before, after, d, id, k);
    let ks = owned_kinds(find_owned(before.spec_project().inputs@, id), find_owned(after.spec_project().inputs@, id));
    if find_owned(before.spec_project().inputs@, id) is None {
        assert(ks == seq!["added"]);
        if k == "added" { assert(ks[0] == k); }
    }
    if find_owned(after.spec_project().inputs@, id) is None {
        assert(ks == seq!["removed"]);
        if k == "removed" { assert(ks[0] == k); }
    }
}

/// A policy that a reported change concerns is impacted, in whichever version declares it.
proof fn lemma_touched_impacted(p: CompiledProject, cs: Seq<(&'static str, Seq<char>, &'static str)>, s: IdSet, r: IdSet,
    i: int, j: int)
    requires
        p.wf(), seeds_ok(p, cs, s), reach_ok(p.spec_dependencies(), s, r),
        0 <= i < p.spec_project().policies@.len(), 0 <= j < cs.len(), touches(p.spec_project().policies@[i], cs[j]),
    ensures r.has(p.spec_project().policies@[i].id@),
{
    p.lemma_wf();
    let q = p.spec_project().policies@[i];
    assert(touched(q, cs));
    assert(s.has(q.id@));
    assert(policy_ids(p.spec_project().policies@)[i] == q.id@);
    assert(policy_ids(p.spec_project().policies@).contains(q.id@));
    assert(p.spec_compiled().has(q.id@));
    assert(p.spec_dependencies().has(q.id@));
}

/// Law: a type change of an external input impacts its readers. When both projects declare
/// the external input `id` with different types, every policy of either version whose ports
/// read `id` is among the impacted policies.
pub proof fn lemma_type_change_impacts_readers(before: CompiledProject, after: CompiledProject, d: ProjectDifference,
    id: Seq<char>, x: OwnedInput, y: OwnedInput, reader: PolicySpec)
    requires
        before.wf(), after.wf(),
        difference_ok(before, after, d),
        find_owned(before.spec_project().inputs@, id) == Some(x),
        find_owned(after.spec_project().inputs@, id) == Some(y),
        x.spec.input_type != y.spec.input_type,
        before.spec_project().policies@.contains(reader) || after.spec_project().policies@.contains(reader),
        exists|t: int| 0 <= t < reader.links.values().len()
            && (#[trigger] reader.links.values()[t] matches InputSource::External(e) && e@ == id),
    ensures d.impacted_policies.has(reader.id@),
{
    lemma_type_change_reported(before, after, d, id, x, y);
    let cs = project_changes_spec(before, after);
    let c = ("input", id, "type-changed");
    assert(cs.contains(c));
    let j = choose|j: int| 0 <= j < cs.len() && cs[j] == c;
    reveal_strlit("input");
    reveal_strlit("module");
    reveal_strlit("policy");
    assert("input"@ != "policy"@) by { assert("input"@.len() != "policy"@.len()); }
    assert("input"@ != "module"@) by { assert("input"@.len() != "module"@.len()); }
    assert(cs[j].0@ == "input"@ && cs[j].1 == id);
    assert(touches(reader, cs[j]));
    let (s1, r1, s2, r2) = choose|s1: IdSet, r1: IdSet, s2: IdSet, r2: IdSet|
        #![trigger seeds_ok(before, cs, s1), reach_ok(before.spec_dependencies(), s1, r1), seeds_ok(after, cs, s2), reach_ok(after.spec_dependencies(), s2, r2)]
        seeds_ok(before, cs, s1) && reach_ok(before.spec_dependencies(), s1, r1)
        && seeds_ok(after, cs, s2) && reach_ok(after.spec_dependencies(), s2, r2)
        && forall|k: Seq<char>| #[trigger] d.impacted_policies.has(k) <==> (r1.has(k) || r2.has(k));
    if before.spec_project().policies@.contains(reader) {
        let i = choose|i: int| 0 <= i < before.spec_project().policies@.len() && before.spec_project().policies@[i] == reader;
        lemma_touched_impacted(before, cs, s1, r1, i, j);
    } else {
        let i = choose|i: int| 0 <= i < after.spec_project().policies@.len() && after.spec_project().policies@[i] == reader;
        lemma_touched_impacted(after, cs, s2, r2, i, j);
    }
}

/// Law: a project compared with itself reports no change.
pub proof fn lemma_compare_self(p: CompiledProject)
    requires p.wf(),
    ensures project_changes_spec(p, p).len() == 0,
{
    p.lemma_wf();
    let s = p.spec_project();
    let ms = module_ids(s.modules@);
    let os = owned_ids(s.inputs@);
    let ps = policy_ids(s.policies@);
    lemma_sorted_union(ms, ms, ms);
    lemma_sorted_union(os, os, os);
    lemma_sorted_union(ps, ps, ps);
    assert forall|i: int| 0 <= i < ms.len() implies #[trigger] module_kinds_of(s.modules@, s.modules@)(ms[i]).len() == 0 by {
        assert(ms.contains(ms[i]));
    }
    assert forall|i: int| 0 <= i < os.len() implies #[trigger] owned_kinds_of(s.inputs@, s.inputs@)(os[i]).len() == 0 by {
        assert(os.contains(os[i]));
    }
    assert forall|i: int| 0 <= i < ps.len() implies #[trigger] policy_kinds_of(p, p)(ps[i]).len() == 0 by {
        assert(ps.contains(ps[i]));
        assert(p.spec_compiled().has(ps[i]));
        crate::syntax::lemma_same_logic_reflexive(p.spec_compiled().at(ps[i]));
    }
    lemma_tagged_empty(ms, module_kinds_of(s.modules@, s.modules@));
    lemma_tagged_empty(os, owned_kinds_of(s.inputs@, s.inputs@));
    lemma_tagged_empty(ps, policy_kinds_of(p, p));
}

} // verus!
