//! Bounded, explicitly wired scalar-policy projects over the existing evaluator.
//! This is a host API, not a replacement parser or an external-effect sandbox.
use std::sync::Arc;
use vstd::prelude::*;
use crate::collections::{increasing, string_views, IdMap, IdSet};
use crate::graph::{acyclic, closed_graph, deps, reach, reach_ok, stuck, topological, topological_order, least_ready_first, least_reach, lemma_reach_least, Graph};
use crate::inputs::{check_schema, declares, input_view, input_views, schema_ok, spec_valid_id, spec_valid_name, valid_id, InputSpec, InputType};
use crate::report::{decimal, lemma_decimal_digits, lemma_decimal_injective, write_decimal};
use crate::syntax::{compile_with_inputs, compiled, compiled_from, CompiledExpression};
use crate::text::{seq_lt, chars_of, control, count_utf16_bounded, count_utf8_bounded, is_control, is_unicode_space,
    push_str, str_equal, unicode_space, utf16_len, utf8_len};
use crate::{Diagnostic, Type, Value, ValueModel, MAX_INPUTS, MAX_SOURCE_UNITS};
use crate::collections::bindings_view;
use crate::execution::{delivered, evaluate_with, limits_ok, not_cancelled, observed_ok, program_values, shown_ok, Limits, ObservationOptions, ObservedOutcome, Observer,
    TraceStep, step_units, step_view, StepModel};
use crate::handles::{same_allocation, share};
use crate::inputs::{resolve, resolve_problem, InputBindings};
use crate::cancel::CancellationToken;
use std::ops::ControlFlow;

verus! {

pub const MAX_MODULES: usize = 64;
pub const MAX_POLICIES: usize = 128;
pub const MAX_PROJECT_SOURCE_UNITS: usize = 1_048_576;

/// A module: stable ID, display name, and the modules it may import from.
#[derive(Clone, Debug, PartialEq, Eq)]
pub struct ModuleSpec {
    pub id: String,
    pub name: String,
    /// Direct permitted dependencies, not transitive access grants.
    pub imports: IdSet,
}

pub open spec fn module_view(m: ModuleSpec) -> (Seq<char>, Seq<char>, Seq<Seq<char>>) {
    (m.id@, m.name@, m.imports.members())
}

impl ModuleSpec {
    pub fn duplicate(&self) -> (c: Self)
        ensures module_view(c) == module_view(*self),
    {
        ModuleSpec { id: self.id.clone(), name: self.name.clone(), imports: self.imports.duplicate() }
    }
}

/// An external input and the module that owns it.
#[derive(Clone, Debug, PartialEq, Eq)]
pub struct OwnedInput {
    pub module: String,
    pub spec: InputSpec,
}

pub open spec fn owned_view(o: OwnedInput) -> (Seq<char>, (Seq<char>, Seq<char>, InputType)) {
    (o.module@, input_view(o.spec))
}

impl OwnedInput {
    pub fn duplicate(&self) -> (c: Self)
        ensures owned_view(c) == owned_view(*self),
    {
        OwnedInput { module: self.module.clone(), spec: self.spec.duplicate() }
    }
}

/// Where a policy's input port takes its value from.
#[derive(Clone, Debug, PartialEq, Eq)]
pub enum InputSource {
    External(String),
    Policy(String),
}

pub enum SourceView {
    External(Seq<char>),
    Policy(Seq<char>),
}

pub open spec fn source_view(s: InputSource) -> SourceView {
    match s { InputSource::External(e) => SourceView::External(e@), InputSource::Policy(p) => SourceView::Policy(p@) }
}

impl InputSource {
    pub fn duplicate(&self) -> (c: Self)
        ensures source_view(c) == source_view(*self),
    {
        match self {
            InputSource::External(e) => InputSource::External(e.clone()),
            InputSource::Policy(p) => InputSource::Policy(p.clone()),
        }
    }
}

/// What a policy's wiring is: port IDs and their sources, by port ID.
pub open spec fn links_view(l: IdMap<InputSource>) -> (Seq<Seq<char>>, Seq<SourceView>) {
    (l.keys(), l.values().map_values(|s: InputSource| source_view(s)))
}

/// One policy: identity, owner, visibility, source and the wiring of each input port.
#[derive(Clone, Debug, PartialEq, Eq)]
pub struct PolicySpec {
    pub id: String,
    pub name: String,
    pub module: String,
    pub exported: bool,
    pub uri: String,
    pub source: String,
    pub inputs: Vec<InputSpec>,
    /// Every local port ID is explicitly connected exactly once.
    pub links: IdMap<InputSource>,
}

pub open spec fn policy_view(p: PolicySpec) -> (Seq<char>, Seq<char>, Seq<char>, bool, Seq<char>, Seq<char>,
    Seq<(Seq<char>, Seq<char>, InputType)>, (Seq<Seq<char>>, Seq<SourceView>))
{
    (p.id@, p.name@, p.module@, p.exported, p.uri@, p.source@, input_views(p.inputs@), links_view(p.links))
}

/// An equal copy of a policy's wiring.
fn copy_links(l: &IdMap<InputSource>) -> (c: IdMap<InputSource>)
    ensures links_view(c) == links_view(*l),
{
    let entries = l.entries();
    let mut c: IdMap<InputSource> = IdMap::new();
    let mut i: usize = 0;
    while i < entries.len()
        invariant
            i <= entries@.len(), entries@.len() == l.keys().len(), l.keys().len() == l.values().len(),
            increasing(l.keys()),
            forall|j: int| 0 <= j < entries@.len() ==> (#[trigger] entries@[j]).0@ == l.keys()[j] && entries@[j].1 == l.values()[j],
            forall|k: Seq<char>| c.has(k) <==> exists|j: int| 0 <= j < i && (#[trigger] l.keys()[j]) == k,
            forall|j: int| 0 <= j < i ==> source_view(c.at(#[trigger] l.keys()[j])) == source_view(l.values()[j]),
        decreases entries@.len() - i,
    {
        let ghost before = c;
        c.insert(entries[i].0.clone(), entries[i].1.duplicate());
        proof {
            assert forall|j: int| 0 <= j < i + 1 implies source_view(c.at(#[trigger] l.keys()[j])) == source_view(l.values()[j]) by {
                if j < i {
                    assert(l.keys()[j] != l.keys()[i as int]) by {
                        crate::collections::lemma_seq_lt_irreflexive(l.keys()[j]);
                    }
                    assert(before.has(l.keys()[j]));
                }
            }
        }
        i += 1;
    }
    let _ = c.entries();
    proof {
        assert forall|k: Seq<char>| #![trigger c.keys().contains(k)] #![trigger l.keys().contains(k)]
            c.keys().contains(k) <==> l.keys().contains(k) by {
            if l.keys().contains(k) {
                let j = choose|j: int| 0 <= j < l.keys().len() && l.keys()[j] == k;
                assert(c.has(l.keys()[j]));
            }
            if c.keys().contains(k) {
                assert(c.has(k));
                let j = choose|j: int| 0 <= j < i && (#[trigger] l.keys()[j]) == k;
                assert(l.keys().contains(l.keys()[j]));
            }
        }
        crate::collections::lemma_increasing_unique(c.keys(), l.keys());
        let x = c.values().map_values(|s: InputSource| source_view(s));
        let y = l.values().map_values(|s: InputSource| source_view(s));
        assert forall|j: int| 0 <= j < x.len() implies #[trigger] x[j] == y[j] by {
            c.lemma_at_index(j);
        }
        assert(x =~= y);
    }
    c
}

impl PolicySpec {
    pub fn duplicate(&self) -> (c: Self)
        ensures policy_view(c) == policy_view(*self),
    {
        PolicySpec {
            id: self.id.clone(), name: self.name.clone(), module: self.module.clone(), exported: self.exported,
            uri: self.uri.clone(), source: self.source.clone(), inputs: crate::inputs::copy_specs(self.inputs.as_slice()),
            links: copy_links(&self.links),
        }
    }
}

/// A whole project: modules, owned external inputs and policies.
#[derive(Clone, Debug, PartialEq, Eq)]
pub struct ProjectSpec {
    pub modules: Vec<ModuleSpec>,
    pub inputs: Vec<OwnedInput>,
    pub policies: Vec<PolicySpec>,
}

/// A coded project failure about one declaration, never a fabricated source offset.
#[derive(Clone, Debug, PartialEq, Eq)]
pub struct ProjectError {
    pub code: &'static str,
    /// A declaration ID, never a fabricated source offset.
    pub subject: Option<String>,
    pub message: String,
    /// Present only when the existing compiler/evaluator supplied this diagnostic.
    pub diagnostic: Option<Diagnostic>,
}

/// The text of an optional string.
pub open spec fn opt_text(o: Option<&str>) -> Option<Seq<char>> {
    match o { Some(s) => Some(s@), None => None }
}

impl ProjectError {
    /// The ID the error is about, if any.
    pub open spec fn subject_id(self) -> Option<Seq<char>> {
        match self.subject { Some(s) => Some(s@), None => None }
    }

    /// Whether the error has the given code and subject.
    pub open spec fn is(self, code: &'static str, subject: Option<Seq<char>>) -> bool {
        self.code == code && self.subject_id() == subject
    }

    pub(crate) fn new(code: &'static str, subject: Option<&str>, message: String) -> (e: Self)
        ensures e.code == code, e.diagnostic is None,
            e.subject is Some <==> subject is Some,
            subject matches Some(s) ==> e.subject.unwrap()@ == s@,
            e.subject_id() == opt_text(subject), e.message@ == message@,
    {
        let subject = match subject { Some(s) => Some(s.to_owned()), None => None };
        ProjectError { code, subject, message, diagnostic: None }
    }

    fn engine(code: &'static str, subject: Option<&str>, diagnostic: Diagnostic) -> (e: Self)
        ensures e.code == code, e.diagnostic matches Some(d) && d.code == diagnostic.code,
            e.subject_id() == opt_text(subject),
    {
        let subject = match subject { Some(s) => Some(s.to_owned()), None => None };
        ProjectError { code, subject, message: diagnostic.message.clone(), diagnostic: Some(diagnostic) }
    }

    /// `CODE [subject]: message`.
    pub fn to_text(&self) -> (s: String)
        ensures s@ == self.code@ + (match self.subject { Some(id) => " ["@ + id@ + "]"@, None => Seq::<char>::empty() })
            + ": "@ + self.message@,
    {
        let mut s = String::from_str(self.code);
        match &self.subject {
            Some(id) => {
                push_str(&mut s, " [");
                push_str(&mut s, id.as_str());
                push_str(&mut s, "]");
            }
            None => {}
        }
        push_str(&mut s, ": ");
        push_str(&mut s, self.message.as_str());
        proof {
            match &self.subject {
                Some(id) => { assert(s@ =~= self.code@ + (" ["@ + id@ + "]"@) + ": "@ + self.message@); }
                None => { assert(s@ =~= self.code@ + Seq::<char>::empty() + ": "@ + self.message@); }
            }
        }
        s
    }
}

/// A nonempty label of at most `max` bytes without control characters.
pub open spec fn label_ok_spec(s: Seq<char>, max: int) -> bool {
    &&& exists|i: int| 0 <= i < s.len() && !is_unicode_space(#[trigger] s[i])
    &&& utf8_len(s) <= max
    &&& forall|i: int| 0 <= i < s.len() ==> !is_control(#[trigger] s[i])
}

fn label_ok(text: &str, max: usize) -> (r: bool)
    requires max <= 4096,
    ensures r == label_ok_spec(text@, max as int),
{
    let cs = chars_of(text);
    let mut visible = false;
    let mut i: usize = 0;
    while i < cs.len()
        invariant
            i <= cs@.len(), cs@ == text@,
            visible <==> exists|j: int| 0 <= j < i && !is_unicode_space(#[trigger] cs@[j]),
            forall|j: int| 0 <= j < i ==> !is_control(#[trigger] cs@[j]),
        decreases cs@.len() - i,
    {
        if control(cs[i]) {
            return false;
        }
        if !unicode_space(cs[i]) {
            visible = true;
        }
        i += 1;
    }
    visible && count_utf8_bounded(cs.as_slice(), max).is_some()
}

/// Whether the counts of a project are acceptable: 1 to 64 modules, 1 to 128 policies,
/// at most 256 external inputs.
pub open spec fn counts_ok(s: ProjectSpec) -> bool {
    &&& 1 <= s.modules@.len() <= MAX_MODULES
    &&& 1 <= s.policies@.len() <= MAX_POLICIES
    &&& s.inputs@.len() <= MAX_INPUTS
}

/// Codes with which compiling a project fails.
pub open spec fn project_code(c: &'static str) -> bool {
    c == "PROJECT_SCHEMA" || c == "MODULE_CYCLE" || c == "PROJECT_INPUT_SCHEMA" || c == "PROJECT_SOURCE_LIMIT"
        || c == "POLICY_COMPILE" || c == "LINK_SCHEMA" || c == "UNKNOWN_EXTERNAL" || c == "INPUT_OWNERSHIP"
        || c == "UNKNOWN_POLICY" || c == "PRIVATE_POLICY" || c == "UNDECLARED_IMPORT" || c == "LINK_TYPE"
        || c == "POLICY_CYCLE"
}

/// Read-only compiled graph. Cloning an Arc preserves exact project identity.
#[derive(Debug)]
pub struct CompiledProject {
    spec: ProjectSpec,
    compiled: IdMap<CompiledExpression>,
    order: Vec<String>,
    dependencies: Graph,
    external_validator: CompiledExpression,
}


/// A policy's ports take their values from declared external inputs and from policies it
/// depends on.
pub open spec fn links_wired(p: PolicySpec, g: Graph, ext: Seq<Seq<char>>) -> bool {
    forall|t: int| 0 <= t < p.links.keys().len() ==> match #[trigger] p.links.values()[t] {
        InputSource::External(e) => ext.contains(e@),
        InputSource::Policy(q) => deps(g, p.id@).has(q@),
    }
}

pub open spec fn spec_input_ids(s: Seq<InputSpec>) -> Seq<Seq<char>> {
    s.map_values(|x: InputSpec| x.id@)
}

pub open spec fn policy_ids(ps: Seq<PolicySpec>) -> Seq<Seq<char>> {
    ps.map_values(|p: PolicySpec| p.id@)
}

pub open spec fn module_ids(ms: Seq<ModuleSpec>) -> Seq<Seq<char>> {
    ms.map_values(|m: ModuleSpec| m.id@)
}

pub open spec fn owned_ids(os: Seq<OwnedInput>) -> Seq<Seq<char>> {
    os.map_values(|o: OwnedInput| o.spec.id@)
}

impl CompiledProject {
    #[verifier::type_invariant]
    pub closed spec fn wf(&self) -> bool {
        &&& closed_graph(self.dependencies)
        &&& topological_order(self.dependencies, string_views(self.order@))
        &&& least_ready_first(self.dependencies, string_views(self.order@))
        &&& forall|k: Seq<char>| self.dependencies.has(k) <==> #[trigger] self.compiled.has(k)
        &&& forall|k: Seq<char>| #[trigger] self.compiled.has(k) <==> policy_ids(self.spec.policies@).contains(k)
        &&& forall|k: Seq<char>| #[trigger] self.compiled.has(k) ==> self.compiled.at(k).wf()
        &&& increasing(policy_ids(self.spec.policies@))
        &&& increasing(module_ids(self.spec.modules@))
        &&& increasing(owned_ids(self.spec.inputs@))
        &&& forall|i: int| 0 <= i < self.spec.policies@.len() ==>
            links_wired(#[trigger] self.spec.policies@[i], self.dependencies, spec_input_ids(self.external_validator.spec_inputs()))
        &&& forall|k: Seq<char>| #[trigger] self.compiled.has(k) ==>
            input_views(self.compiled.at(k).spec_inputs()) == input_views(self.spec_policy(k).inputs@)
        &&& forall|k: Seq<char>| #[trigger] self.compiled.has(k) ==>
            compiled_from(self.compiled.at(k), self.spec_policy(k).source@, input_views(self.spec_policy(k).inputs@))
        &&& dep_graph_of(self.dependencies, self.spec.policies@)
        &&& validator_of(self.external_validator.spec_inputs(), self.spec.inputs@)
    }

    /// The project, with modules, inputs and policies by increasing ID.
    pub closed spec fn spec_project(&self) -> ProjectSpec { self.spec }

    /// Policy IDs in execution order.
    pub closed spec fn spec_order(&self) -> Seq<Seq<char>> { string_views(self.order@) }

    /// Direct policy dependencies, by policy ID.
    pub closed spec fn spec_dependencies(&self) -> Graph { self.dependencies }

    /// The compiled expression of each policy.
    pub closed spec fn spec_compiled(&self) -> IdMap<CompiledExpression> { self.compiled }

    /// The expression that validates external inputs.
    pub closed spec fn spec_validator(&self) -> CompiledExpression { self.external_validator }

    /// The policy with ID `k`.
    pub open spec fn spec_policy(&self, k: Seq<char>) -> PolicySpec {
        self.spec_project().policies@[policy_ids(self.spec_project().policies@).index_of(k)]
    }

    /// What the type invariant guarantees.
    pub proof fn lemma_wf(&self)
        requires self.wf(),
        ensures
            closed_graph(self.spec_dependencies()),
            topological_order(self.spec_dependencies(), self.spec_order()),
            least_ready_first(self.spec_dependencies(), self.spec_order()),
            forall|k: Seq<char>| self.spec_dependencies().has(k) <==> #[trigger] self.spec_compiled().has(k),
            forall|k: Seq<char>| #[trigger] self.spec_compiled().has(k) <==> policy_ids(self.spec_project().policies@).contains(k),
            forall|k: Seq<char>| #[trigger] self.spec_compiled().has(k) ==> self.spec_compiled().at(k).wf(),
            increasing(policy_ids(self.spec_project().policies@)),
            increasing(module_ids(self.spec_project().modules@)),
            increasing(owned_ids(self.spec_project().inputs@)),
            forall|i: int| 0 <= i < self.spec_project().policies@.len() ==>
                links_wired(#[trigger] self.spec_project().policies@[i], self.spec_dependencies(), spec_input_ids(self.spec_validator().spec_inputs())),
            forall|k: Seq<char>| #[trigger] self.spec_compiled().has(k) ==>
                input_views(self.spec_compiled().at(k).spec_inputs()) == input_views(self.spec_policy(k).inputs@),
            forall|k: Seq<char>| #[trigger] self.spec_compiled().has(k) ==>
                compiled_from(self.spec_compiled().at(k), self.spec_policy(k).source@, input_views(self.spec_policy(k).inputs@)),
            dep_graph_of(self.spec_dependencies(), self.spec_project().policies@),
            validator_of(self.spec_validator().spec_inputs(), self.spec_project().inputs@),
    {}

    pub fn spec(&self) -> (r: &ProjectSpec)
        ensures *r == self.spec_project(),
    {
        &self.spec
    }

    pub fn order(&self) -> (r: &[String])
        ensures string_views(r@) == self.spec_order(),
    {
        self.order.as_slice()
    }

    pub fn dependencies(&self) -> (r: &Graph)
        ensures *r == self.spec_dependencies(),
    {
        &self.dependencies
    }

    /// The policy with ID `id`, if any.
    pub fn policy(&self, id: &str) -> (r: Option<&PolicySpec>)
        ensures
            r matches Some(p) ==> p.id@ == id@ && *p == self.spec_policy(id@),
            r is None <==> !policy_ids(self.spec_project().policies@).contains(id@),
    {
        proof { use_type_invariant(self); }
        let ps = self.spec.policies.as_slice();
        let mut i: usize = 0;
        while i < ps.len()
            invariant
                i <= ps@.len(), ps@ == self.spec.policies@, increasing(policy_ids(ps@)),
                forall|j: int| 0 <= j < i ==> (#[trigger] ps@[j]).id@ != id@,
            decreases ps@.len() - i,
        {
            if str_equal(ps[i].id.as_str(), id) {
                proof {
                    let ids = policy_ids(ps@);
                    assert(ids[i as int] == id@);
                    assert(ids.contains(id@));
                    let j = ids.index_of(id@);
                    if j != i {
                        crate::collections::lemma_seq_lt_irreflexive(id@);
                    }
                }
                return Some(&ps[i]);
            }
            i += 1;
        }
        proof {
            let ids = policy_ids(ps@);
            if ids.contains(id@) {
                let j = choose|j: int| 0 <= j < ids.len() && ids[j] == id@;
                assert(ps@[j].id@ == id@);
            }
        }
        None
    }

    /// The compiled expression of policy `id`, if any.
    pub fn expression(&self, id: &str) -> (r: Option<&CompiledExpression>)
        ensures
            r is Some <==> self.spec_compiled().has(id@),
            r matches Some(e) ==> *e == self.spec_compiled().at(id@),
    {
        self.compiled.get(id)
    }

    /// Conservative transitive consumers of the seeds, including the seeds that are policies.
    pub fn impacted(&self, seeds: &IdSet) -> (r: IdSet)
        ensures reach_ok(self.spec_dependencies(), *seeds, r), least_reach(self.spec_dependencies(), *seeds, r),
    {
        proof { use_type_invariant(self); }
        let r = reach(&self.dependencies, seeds);
        proof { lemma_reach_least(self.dependencies, string_views(self.order@), *seeds, r); }
        r
    }
}


fn schema_error(subject: Option<&str>, message: &str) -> (e: ProjectError)
    ensures e.code == "PROJECT_SCHEMA", e.subject is Some <==> subject is Some, e.subject_id() == opt_text(subject),
{
    ProjectError::new("PROJECT_SCHEMA", subject, message.to_owned())
}

/// An index of declarations by ID: every ID once, each at a position holding it.
pub open spec fn indexes(m: IdMap<usize>, ids: Seq<Seq<char>>) -> bool {
    &&& forall|k: Seq<char>| #[trigger] m.has(k) <==> ids.contains(k)
    &&& forall|k: Seq<char>| #[trigger] m.has(k) ==> m.at(k) < ids.len() && ids[m.at(k) as int] == k
    &&& forall|i: int, j: int| 0 <= i < j < ids.len() ==> ids[i] != ids[j]
}

/// Whether one module's metadata is acceptable.
pub open spec fn module_ok(m: ModuleSpec) -> bool {
    spec_valid_id(m.id@) && label_ok_spec(m.name@, 128) && m.imports.members().len() <= MAX_MODULES
}


proof fn lemma_contains_push(s: Seq<Seq<char>>, x: Seq<char>, q: Seq<char>)
    ensures s.push(x).contains(q) <==> (s.contains(q) || q == x),
{
    let t = s.push(x);
    if s.contains(q) {
        let j = choose|j: int| 0 <= j < s.len() && s[j] == q;
        assert(t[j] == q);
    }
    if q == x { assert(t[s.len() as int] == q); }
    if t.contains(q) {
        let j = choose|j: int| 0 <= j < t.len() && t[j] == q;
        if j < s.len() { assert(s[j] == q); }
    }
}

/// Adding the declaration at position `i` to an index of the first `i` declarations.
proof fn lemma_index_push(before: IdMap<usize>, after: IdMap<usize>, ids: Seq<Seq<char>>, i: int)
    requires
        0 <= i < ids.len(), indexes(before, ids.take(i)), !before.has(ids[i]),
        after.has(ids[i]), after.at(ids[i]) == i,
        forall|q: Seq<char>| q != ids[i] ==> (after.has(q) == before.has(q) && (before.has(q) ==> after.at(q) == before.at(q))),
    ensures indexes(after, ids.take(i + 1)),
{
    let k = ids[i];
    let t = ids.take(i + 1);
    assert(t =~= ids.take(i).push(k));
    assert forall|q: Seq<char>| #[trigger] after.has(q) <==> t.contains(q) by {
        lemma_contains_push(ids.take(i), k, q);
    }
    assert forall|a: int, b: int| 0 <= a < b < t.len() implies t[a] != t[b] by {
        if b == i {
            assert(ids.take(i)[a] == t[a]);
            assert(ids.take(i).contains(t[a]));
        } else {
            assert(ids.take(i)[a] == t[a] && ids.take(i)[b] == t[b]);
        }
    }
    assert forall|q: Seq<char>| #[trigger] after.has(q) implies after.at(q) < t.len() && t[after.at(q) as int] == q by {
        if q != k {
            assert(before.has(q));
            assert(ids.take(i)[before.at(q) as int] == q);
        }
    }
}

/// The first module, from position `i` on, whose metadata is unacceptable or whose ID an
/// earlier module has.
pub open spec fn bad_module(ms: Seq<ModuleSpec>, i: nat) -> Option<Seq<char>>
    decreases ms.len() - i,
{
    if i >= ms.len() {
        None
    } else if !module_ok(ms[i as int]) || module_ids(ms).take(i as int).contains(ms[i as int].id@) {
        Some(ms[i as int].id@)
    } else {
        bad_module(ms, i + 1)
    }
}

fn check_modules(ms: &[ModuleSpec]) -> (r: Result<IdMap<usize>, ProjectError>)
    ensures
        r matches Ok(m) ==> indexes(m, module_ids(ms@)) && forall|i: int| 0 <= i < ms@.len() ==> module_ok(#[trigger] ms@[i]),
        r matches Err(e) ==> e.code == "PROJECT_SCHEMA",
        (match bad_module(ms@, 0) {
            None => r is Ok,
            Some(id) => r matches Err(e) && e.is("PROJECT_SCHEMA", Some(id)),
        }),
{
    let mut m: IdMap<usize> = IdMap::new();
    let mut i: usize = 0;
    while i < ms.len()
        invariant
            i <= ms@.len(),
            indexes(m, module_ids(ms@).take(i as int)),
            forall|j: int| 0 <= j < i ==> module_ok(#[trigger] ms@[j]),
            bad_module(ms@, i as nat) == bad_module(ms@, 0),
        decreases ms@.len() - i,
    {
        let module = &ms[i];
        let ghost ids = module_ids(ms@);
        assert(m.has(module.id@) == ids.take(i as int).contains(module.id@));
        if !valid_id(module.id.as_str()) || !label_ok(module.name.as_str(), 128) || module.imports.size() > MAX_MODULES
            || m.contains_key(module.id.as_str()) {
            return Err(schema_error(Some(module.id.as_str()), "Invalid or duplicate module identity/name/import count."));
        }
        let ghost before = m;
        m.insert(module.id.clone(), i);
        proof { lemma_index_push(before, m, ids, i as int); }
        i += 1;
    }
    assert(module_ids(ms@).take(ms@.len() as int) =~= module_ids(ms@));
    Ok(m)
}

/// Whether every module that `m` imports is among `ids`.
pub open spec fn imports_known(m: ModuleSpec, ids: Seq<Seq<char>>) -> bool {
    forall|x: int| 0 <= x < m.imports.members().len() ==> ids.contains(#[trigger] m.imports.members()[x])
}

/// The first module, from position `i` on, that imports an undeclared module.
pub open spec fn bad_import(ms: Seq<ModuleSpec>, i: nat) -> Option<Seq<char>>
    decreases ms.len() - i,
{
    if i >= ms.len() {
        None
    } else if !imports_known(ms[i as int], module_ids(ms)) {
        Some(ms[i as int].id@)
    } else {
        bad_import(ms, i + 1)
    }
}

/// `k` is the ID of a declared module that imports a module of `s`.
pub open spec fn imports_into(ms: Seq<ModuleSpec>, s: Set<Seq<char>>, k: Seq<char>) -> bool {
    exists|i: int, d: Seq<char>| 0 <= i < ms.len() && ms[i].id@ == k && #[trigger] ms[i].imports.has(d) && s.contains(d)
}

/// A nonempty set of IDs, each that of a declared module that imports a module of the set.
pub open spec fn module_cycle(ms: Seq<ModuleSpec>, s: Set<Seq<char>>) -> bool {
    &&& exists|k: Seq<char>| s.contains(k)
    &&& forall|k: Seq<char>| #![trigger imports_into(ms, s, k)] s.contains(k) ==> imports_into(ms, s, k)
}

/// No modules import one another in a cycle.
pub open spec fn modules_acyclic(ms: Seq<ModuleSpec>) -> bool {
    forall|s: Set<Seq<char>>| !module_cycle(ms, s)
}

/// The facts that tie an import graph to its modules.
pub open spec fn import_graph_of(g: Graph, ms: Seq<ModuleSpec>) -> bool {
    &&& forall|k: Seq<char>| #[trigger] g.has(k) <==> module_ids(ms).contains(k)
    &&& forall|i: int| 0 <= i < ms.len() ==> (#[trigger] g.at(ms[i].id@)).members() == ms[i].imports.members()
}

proof fn lemma_stuck_is_module_cycle(ms: Seq<ModuleSpec>, g: Graph, s: Set<Seq<char>>)
    requires import_graph_of(g, ms), stuck(g, s),
    ensures module_cycle(ms, s),
{
    assert forall|k: Seq<char>| s.contains(k) implies #[trigger] imports_into(ms, s, k) by {
        assert(g.has(k));
        let ids = module_ids(ms);
        assert(ids.contains(k));
        let i = choose|i: int| 0 <= i < ids.len() && ids[i] == k;
        let d = choose|d: Seq<char>| deps(g, k).has(d) && s.contains(d);
        assert(g.at(ms[i].id@).members() == ms[i].imports.members());
        assert(ms[i].imports.has(d));
    }
}

proof fn lemma_module_cycle_is_stuck(ms: Seq<ModuleSpec>, g: Graph, s: Set<Seq<char>>)
    requires import_graph_of(g, ms), module_cycle(ms, s),
    ensures stuck(g, s),
{
    assert forall|k: Seq<char>| #![trigger deps(g, k)] s.contains(k) implies exists|d: Seq<char>| deps(g, k).has(d) && s.contains(d) by {
        assert(imports_into(ms, s, k));
        let (i, d) = choose|i: int, d: Seq<char>| 0 <= i < ms.len() && ms[i].id@ == k && #[trigger] ms[i].imports.has(d) && s.contains(d);
        assert(g.at(ms[i].id@).members() == ms[i].imports.members());
        assert(deps(g, k).has(d));
    }
    assert forall|k: Seq<char>| s.contains(k) implies g.has(k) by {
        assert(imports_into(ms, s, k));
        let (i, d) = choose|i: int, d: Seq<char>| 0 <= i < ms.len() && ms[i].id@ == k && #[trigger] ms[i].imports.has(d) && s.contains(d);
        assert(module_ids(ms)[i] == k);
        assert(module_ids(ms).contains(k));
    }
}

/// The import graph of the modules is acyclic exactly when no modules import one
/// another in a cycle.
proof fn lemma_module_graph_acyclic(ms: Seq<ModuleSpec>, g: Graph)
    requires import_graph_of(g, ms),
    ensures acyclic(g) <==> modules_acyclic(ms),
{
    if acyclic(g) {
        assert forall|s: Set<Seq<char>>| !module_cycle(ms, s) by {
            if module_cycle(ms, s) { lemma_module_cycle_is_stuck(ms, g, s); }
        }
    }
    if modules_acyclic(ms) {
        assert forall|s: Set<Seq<char>>| !stuck(g, s) by {
            if stuck(g, s) { lemma_stuck_is_module_cycle(ms, g, s); }
        }
    }
}

fn module_graph(ms: &[ModuleSpec], modules: &IdMap<usize>) -> (r: Result<Graph, ProjectError>)
    requires indexes(*modules, module_ids(ms@)),
    ensures
        r matches Ok(g) ==> closed_graph(g) && forall|k: Seq<char>| #[trigger] g.has(k) <==> module_ids(ms@).contains(k),
        r matches Ok(g) ==> forall|i: int| 0 <= i < ms@.len() ==> (#[trigger] g.at(ms@[i].id@)).members() == ms@[i].imports.members(),
        r matches Err(e) ==> e.code == "PROJECT_SCHEMA",
        (match bad_import(ms@, 0) {
            None => r is Ok,
            Some(id) => r matches Err(e) && e.is("PROJECT_SCHEMA", Some(id)),
        }),
{
    let mut g: Graph = IdMap::new();
    let mut i: usize = 0;
    while i < ms.len()
        invariant
            i <= ms@.len(), indexes(*modules, module_ids(ms@)),
            forall|k: Seq<char>| #[trigger] g.has(k) <==> module_ids(ms@).take(i as int).contains(k),
            forall|k: Seq<char>, d: Seq<char>| #![trigger g.at(k).has(d)] g.has(k) && g.at(k).has(d) ==> modules.has(d),
            forall|j: int| 0 <= j < i ==> (#[trigger] g.at(ms@[j].id@)).members() == ms@[j].imports.members(),
            bad_import(ms@, i as nat) == bad_import(ms@, 0),
        decreases ms@.len() - i,
    {
        let module = &ms[i];
        let imports = module.imports.items();
        let mut j: usize = 0;
        while j < imports.len()
            invariant
                j <= imports@.len(), imports@.len() == module.imports.members().len(),
                indexes(*modules, module_ids(ms@)),
                i < ms@.len(), *module == ms@[i as int],
                bad_import(ms@, i as nat) == bad_import(ms@, 0),
                forall|x: int| 0 <= x < imports@.len() ==> (#[trigger] imports@[x])@ == module.imports.members()[x],
                forall|x: int| 0 <= x < j ==> modules.has(#[trigger] module.imports.members()[x]),
            decreases imports@.len() - j,
        {
            if !modules.contains_key(imports[j].as_str()) {
                assert(!module_ids(ms@).contains(module.imports.members()[j as int]));
                return Err(schema_error(Some(module.id.as_str()), "Import refers to an unknown module."));
            }
            j += 1;
        }
        assert(imports_known(ms@[i as int], module_ids(ms@)));
        let ghost before = g;
        let ghost ids = module_ids(ms@);
        g.insert(module.id.clone(), module.imports.duplicate());
        proof {
            assert forall|j: int| 0 <= j < i + 1 implies (#[trigger] g.at(ms@[j].id@)).members() == ms@[j].imports.members() by {
                if j < i {
                    assert(ids[j] != ids[i as int]);
                    assert(ids.take(i as int)[j] == ids[j]);
                    assert(before.has(ids[j]));
                }
            }
            assert(ids.take(i + 1) =~= ids.take(i as int).push(module.id@));
            assert forall|k: Seq<char>| #[trigger] g.has(k) <==> ids.take(i + 1).contains(k) by {
                lemma_contains_push(ids.take(i as int), module.id@, k);
            }
            assert forall|k: Seq<char>, d: Seq<char>| #![trigger g.at(k).has(d)] g.has(k) && g.at(k).has(d) implies modules.has(d) by {
                if k == module.id@ {
                    let x = choose|x: int| 0 <= x < module.imports.members().len() && module.imports.members()[x] == d;
                } else {
                    assert(before.has(k));
                }
            }
        }
        i += 1;
    }
    let _ = g.entries();
    proof {
        assert(module_ids(ms@).take(ms@.len() as int) =~= module_ids(ms@));
        assert forall|x: int, d: Seq<char>| #![trigger g.values()[x].has(d)] 0 <= x < g.keys().len() && g.values()[x].has(d) implies g.has(d) by {
            g.lemma_at_index(x);
            assert(g.at(g.keys()[x]).has(d));
        }
    }
    Ok(g)
}

/// Whether one external input's declaration is acceptable and owned by a known module.
pub open spec fn owned_ok(o: OwnedInput, module_keys: Seq<Seq<char>>) -> bool {
    schema_ok(seq![o.spec]) && module_keys.contains(o.module@)
}

/// The first external input, from position `i` on, whose declaration is refused, with the
/// code: an invalid schema, an undeclared owner, or an ID an earlier input has.
pub open spec fn bad_input(os: Seq<OwnedInput>, mids: Seq<Seq<char>>, i: nat) -> Option<(&'static str, Seq<char>)>
    decreases os.len() - i,
{
    if i >= os.len() {
        None
    } else if !schema_ok(seq![os[i as int].spec]) {
        Some(("PROJECT_INPUT_SCHEMA", os[i as int].spec.id@))
    } else if !mids.contains(os[i as int].module@) || owned_ids(os).take(i as int).contains(os[i as int].spec.id@) {
        Some(("PROJECT_SCHEMA", os[i as int].spec.id@))
    } else {
        bad_input(os, mids, i + 1)
    }
}

fn check_inputs(os: &[OwnedInput], modules: &IdMap<usize>) -> (r: Result<IdMap<usize>, ProjectError>)
    ensures
        r matches Ok(m) ==> indexes(m, owned_ids(os@)) && forall|i: int| 0 <= i < os@.len() ==> owned_ok(#[trigger] os@[i], modules.keys()),
        r matches Ok(m) ==> m.keys().len() == os@.len(),
        r matches Err(e) ==> e.code == "PROJECT_SCHEMA" || e.code == "PROJECT_INPUT_SCHEMA",
        (match bad_input(os@, modules.keys(), 0) {
            None => r is Ok,
            Some((code, id)) => r matches Err(e) && e.is(code, Some(id)),
        }),
{
    let mut m: IdMap<usize> = IdMap::new();
    let mut i: usize = 0;
    while i < os.len()
        invariant
            i <= os@.len(),
            indexes(m, owned_ids(os@).take(i as int)),
            forall|j: int| 0 <= j < i ==> owned_ok(#[trigger] os@[j], modules.keys()),
            bad_input(os@, modules.keys(), i as nat) == bad_input(os@, modules.keys(), 0),
            m.keys().len() == i,
        decreases os@.len() - i,
    {
        let owned = &os[i];
        let one = vec![owned.spec.duplicate()];
        proof {
            assert(input_views(one@) =~= input_views(seq![owned.spec]));
            if schema_ok(one@) { crate::inputs::lemma_schema_views(one@, seq![owned.spec]); }
            if schema_ok(seq![owned.spec]) { crate::inputs::lemma_schema_views(seq![owned.spec], one@); }
        }
        match check_schema(one.as_slice()) {
            Ok(()) => {}
            Err(d) => { return Err(ProjectError::engine("PROJECT_INPUT_SCHEMA", Some(owned.spec.id.as_str()), d)); }
        }
        assert(m.has(owned.spec.id@) == owned_ids(os@).take(i as int).contains(owned.spec.id@));
        if !modules.contains_key(owned.module.as_str()) || m.contains_key(owned.spec.id.as_str()) {
            return Err(schema_error(Some(owned.spec.id.as_str()), "Unknown input owner or duplicate external input ID."));
        }
        let ghost ids = owned_ids(os@);
        let ghost before = m;
        m.insert(owned.spec.id.clone(), i);
        proof {
            lemma_index_push(before, m, ids, i as int);
            assert(owned_ok(os@[i as int], modules.keys()));
        }
        i += 1;
    }
    assert(owned_ids(os@).take(os@.len() as int) =~= owned_ids(os@));
    Ok(m)
}

/// Whether one policy's metadata is acceptable: its ID, name and URI, a declared owner,
/// at most 256 links, each naming its source by a valid ID.
pub open spec fn policy_meta_ok(p: PolicySpec, module_keys: Seq<Seq<char>>) -> bool {
    &&& spec_valid_id(p.id@)
    &&& label_ok_spec(p.name@, 128)
    &&& label_ok_spec(p.uri@, 4096)
    &&& module_keys.contains(p.module@)
    &&& p.links.keys().len() <= MAX_INPUTS
    &&& forall|t: int| 0 <= t < p.links.keys().len() ==> spec_valid_id(source_id(#[trigger] p.links.values()[t]))
}

/// The ID a port's source names.
pub open spec fn source_id(s: InputSource) -> Seq<char> {
    match s { InputSource::External(e) => e@, InputSource::Policy(q) => q@ }
}

/// Whether every source a policy's ports name is a stable identifier.
fn targets_ok(links: &IdMap<InputSource>) -> (r: bool)
    ensures r == forall|t: int| 0 <= t < links.keys().len() ==> spec_valid_id(source_id(#[trigger] links.values()[t])),
{
    let entries = links.entries();
    let mut i: usize = 0;
    while i < entries.len()
        invariant
            i <= entries@.len(), entries@.len() == links.keys().len(), links.keys().len() == links.values().len(),
            forall|j: int| 0 <= j < entries@.len() ==> (#[trigger] entries@[j]).1 == links.values()[j],
            forall|j: int| 0 <= j < i ==> spec_valid_id(source_id(#[trigger] links.values()[j])),
        decreases entries@.len() - i,
    {
        let target = match &entries[i].1 { InputSource::External(e) => e.as_str(), InputSource::Policy(q) => q.as_str() };
        if !valid_id(target) {
            assert(!spec_valid_id(source_id(links.values()[i as int])));
            return false;
        }
        i += 1;
    }
    true
}

/// UTF-16 units of all policy sources.
pub open spec fn source_units(ps: Seq<PolicySpec>) -> nat
    decreases ps.len(),
{
    if ps.len() == 0 { 0 } else { source_units(ps.drop_last()) + utf16_len(ps.last().source@) }
}

/// The first policy, from position `i` on, that is refused, with the code and subject:
/// unacceptable metadata or an ID an earlier policy has, a source over its limit, or
/// (with no subject) sources whose sum, with `units` before, is over the project's limit.
pub open spec fn bad_policy(ps: Seq<PolicySpec>, mids: Seq<Seq<char>>, i: nat, units: nat)
    -> Option<(&'static str, Option<Seq<char>>)>
    decreases ps.len() - i,
{
    if i >= ps.len() {
        None
    } else if !policy_meta_ok(ps[i as int], mids) || policy_ids(ps).take(i as int).contains(ps[i as int].id@) {
        Some(("PROJECT_SCHEMA", Some(ps[i as int].id@)))
    } else if utf16_len(ps[i as int].source@) > MAX_SOURCE_UNITS {
        Some(("PROJECT_SOURCE_LIMIT", Some(ps[i as int].id@)))
    } else if units + utf16_len(ps[i as int].source@) > MAX_PROJECT_SOURCE_UNITS {
        Some(("PROJECT_SOURCE_LIMIT", None))
    } else {
        bad_policy(ps, mids, i + 1, units + utf16_len(ps[i as int].source@))
    }
}

fn check_policies(ps: &[PolicySpec], modules: &IdMap<usize>) -> (r: Result<IdMap<usize>, ProjectError>)
    ensures
        r matches Ok(m) ==> indexes(m, policy_ids(ps@))
            && (forall|i: int| 0 <= i < ps@.len() ==> policy_meta_ok(#[trigger] ps@[i], modules.keys())
                && utf16_len(ps@[i].source@) <= MAX_SOURCE_UNITS)
            && source_units(ps@) <= MAX_PROJECT_SOURCE_UNITS,
        r matches Err(e) ==> e.code == "PROJECT_SCHEMA" || e.code == "PROJECT_SOURCE_LIMIT",
        (match bad_policy(ps@, modules.keys(), 0, 0) {
            None => r is Ok,
            Some((code, id)) => r matches Err(e) && e.is(code, id),
        }),
{
    let mut m: IdMap<usize> = IdMap::new();
    let mut units: usize = 0;
    let mut i: usize = 0;
    while i < ps.len()
        invariant
            i <= ps@.len(),
            indexes(m, policy_ids(ps@).take(i as int)),
            forall|j: int| 0 <= j < i ==> policy_meta_ok(#[trigger] ps@[j], modules.keys())
                && utf16_len(ps@[j].source@) <= MAX_SOURCE_UNITS,
            units == source_units(ps@.take(i as int)), units <= MAX_PROJECT_SOURCE_UNITS,
            bad_policy(ps@, modules.keys(), i as nat, units as nat) == bad_policy(ps@, modules.keys(), 0, 0),
        decreases ps@.len() - i,
    {
        let policy = &ps[i];
        assert(m.has(policy.id@) == policy_ids(ps@).take(i as int).contains(policy.id@));
        if !valid_id(policy.id.as_str()) || !label_ok(policy.name.as_str(), 128) || !label_ok(policy.uri.as_str(), 4096)
            || !modules.contains_key(policy.module.as_str()) || policy.links.len() > MAX_INPUTS
            || m.contains_key(policy.id.as_str()) || !targets_ok(&policy.links) {
            return Err(schema_error(Some(policy.id.as_str()), "Invalid/duplicate policy metadata, owner or link count."));
        }
        let chars = chars_of(policy.source.as_str());
        let size = match count_utf16_bounded(chars.as_slice(), MAX_SOURCE_UNITS) {
            Some(n) => n,
            None => {
                return Err(ProjectError::new("PROJECT_SOURCE_LIMIT", Some(policy.id.as_str()), String::from_str("Policy source exceeds its limit.")));
            }
        };
        proof {
            assert(ps@.take(i + 1).drop_last() =~= ps@.take(i as int));
        }
        if size > MAX_PROJECT_SOURCE_UNITS - units {
            return Err(ProjectError::new("PROJECT_SOURCE_LIMIT", None, String::from_str("Combined project source exceeds its limit.")));
        }
        units = units + size;
        let ghost ids = policy_ids(ps@);
        let ghost before = m;
        m.insert(policy.id.clone(), i);
        proof { lemma_index_push(before, m, ids, i as int); }
        i += 1;
    }
    assert(policy_ids(ps@).take(ps@.len() as int) =~= policy_ids(ps@));
    assert(ps@.take(ps@.len() as int) =~= ps@);
    Ok(m)
}


/// Some element of `ms` is the module `x`.
pub open spec fn module_in(x: ModuleSpec, ms: Seq<ModuleSpec>) -> bool {
    exists|i: int| 0 <= i < ms.len() && module_view(x) == module_view(#[trigger] ms[i])
}

/// Some element of `os` is the external input `x`.
pub open spec fn owned_in(x: OwnedInput, os: Seq<OwnedInput>) -> bool {
    exists|i: int| 0 <= i < os.len() && owned_view(x) == owned_view(#[trigger] os[i])
}

/// Some element of `ps` is the policy `x`.
pub open spec fn policy_in(x: PolicySpec, ps: Seq<PolicySpec>) -> bool {
    exists|i: int| 0 <= i < ps.len() && policy_view(x) == policy_view(#[trigger] ps[i])
}

fn sorted_modules(ms: &[ModuleSpec], index: &IdMap<usize>) -> (r: Vec<ModuleSpec>)
    requires indexes(*index, module_ids(ms@)),
    ensures
        increasing(module_ids(r@)),
        forall|j: int| 0 <= j < r@.len() ==> #[trigger] module_in(r@[j], ms@),
        forall|i: int| 0 <= i < ms@.len() ==> #[trigger] module_in(ms@[i], r@),
{
    let entries = index.entries();
    let ghost vals = index.values();
    let ghost keys = index.keys();
    proof {
        assert forall|j: int| #![trigger vals[j]] 0 <= j < keys.len() implies vals[j] < ms@.len() && module_ids(ms@)[vals[j] as int] == keys[j] by {
            index.lemma_at_index(j);
            assert(index.has(keys[j]));
        }
    }
    let mut r: Vec<ModuleSpec> = Vec::new();
    let mut t: usize = 0;
    while t < entries.len()
        invariant
            t <= entries@.len(), entries@.len() == keys.len(), keys.len() == vals.len(),
            keys == index.keys(), vals == index.values(),
            increasing(keys), indexes(*index, module_ids(ms@)),
            forall|j: int| 0 <= j < entries@.len() ==> (#[trigger] entries@[j]).0@ == keys[j] && entries@[j].1 == vals[j],
            forall|j: int| #![trigger vals[j]] 0 <= j < keys.len() ==> vals[j] < ms@.len() && module_ids(ms@)[vals[j] as int] == keys[j],
            r@.len() == t,
            forall|j: int| 0 <= j < t ==> #[trigger] module_view(r@[j]) == module_view(ms@[vals[j] as int]),
        decreases entries@.len() - t,
    {
        let at = entries[t].1;
        let ghost old_r = r@;
        r.push(ms[at].duplicate());
        proof {
            assert forall|j: int| 0 <= j < t + 1 implies #[trigger] module_view(r@[j]) == module_view(ms@[vals[j] as int]) by {
                if j < t { assert(r@[j] == old_r[j]); }
            }
        }
        t += 1;
    }
    proof {
        assert forall|j: int| 0 <= j < r@.len() implies #[trigger] module_ids(r@)[j] == keys[j] by {
            assert(module_view(r@[j]) == module_view(ms@[vals[j] as int]));
            assert(module_ids(ms@)[vals[j] as int] == keys[j]);
        }
        assert(module_ids(r@) =~= keys);
        assert forall|i: int| 0 <= i < ms@.len() implies #[trigger] module_in(ms@[i], r@) by {
            let ids = module_ids(ms@);
            let k = ms@[i].id@;
            assert(ids[i] == k);
            assert(ids.contains(k));
            assert(index.has(k));
            let j = choose|j: int| 0 <= j < keys.len() && keys[j] == k;
            index.lemma_at_index(j);
            let a = index.at(k);
            assert(a < ids.len() && ids[a as int] == k);
            if a < i { assert(ids[a as int] != ids[i]); }
            if a > i { assert(ids[i] != ids[a as int]); }
            assert(a == i);
            assert(vals[j] == a);
            assert(module_view(r@[j]) == module_view(ms@[vals[j] as int]));
        }
        assert forall|j: int| 0 <= j < r@.len() implies #[trigger] module_in(r@[j], ms@) by {
            assert(module_view(r@[j]) == module_view(ms@[vals[j] as int]));
        }
    }
    r
}

fn sorted_inputs(os: &[OwnedInput], index: &IdMap<usize>) -> (r: Vec<OwnedInput>)
    requires indexes(*index, owned_ids(os@)),
    ensures
        increasing(owned_ids(r@)), owned_ids(r@) == index.keys(),
        forall|j: int| 0 <= j < r@.len() ==> index.values()[j] < os@.len() && #[trigger] owned_view(r@[j]) == owned_view(os@[index.values()[j] as int]),
        forall|j: int| 0 <= j < r@.len() ==> #[trigger] owned_in(r@[j], os@),
        forall|i: int| 0 <= i < os@.len() ==> #[trigger] owned_in(os@[i], r@),
{
    let entries = index.entries();
    let ghost vals = index.values();
    let ghost keys = index.keys();
    proof {
        assert forall|j: int| #![trigger vals[j]] 0 <= j < keys.len() implies vals[j] < os@.len() && owned_ids(os@)[vals[j] as int] == keys[j] by {
            index.lemma_at_index(j);
            assert(index.has(keys[j]));
        }
    }
    let mut r: Vec<OwnedInput> = Vec::new();
    let mut t: usize = 0;
    while t < entries.len()
        invariant
            t <= entries@.len(), entries@.len() == keys.len(), keys.len() == vals.len(),
            keys == index.keys(), vals == index.values(),
            increasing(keys), indexes(*index, owned_ids(os@)),
            forall|j: int| 0 <= j < entries@.len() ==> (#[trigger] entries@[j]).0@ == keys[j] && entries@[j].1 == vals[j],
            forall|j: int| #![trigger vals[j]] 0 <= j < keys.len() ==> vals[j] < os@.len() && owned_ids(os@)[vals[j] as int] == keys[j],
            r@.len() == t,
            forall|j: int| 0 <= j < t ==> #[trigger] owned_view(r@[j]) == owned_view(os@[vals[j] as int]),
        decreases entries@.len() - t,
    {
        let at = entries[t].1;
        let ghost old_r = r@;
        r.push(os[at].duplicate());
        proof {
            assert forall|j: int| 0 <= j < t + 1 implies #[trigger] owned_view(r@[j]) == owned_view(os@[vals[j] as int]) by {
                if j < t { assert(r@[j] == old_r[j]); }
            }
        }
        t += 1;
    }
    proof {
        assert forall|j: int| 0 <= j < r@.len() implies #[trigger] owned_ids(r@)[j] == keys[j] by {
            assert(owned_view(r@[j]) == owned_view(os@[vals[j] as int]));
            assert(owned_ids(os@)[vals[j] as int] == keys[j]);
        }
        assert(owned_ids(r@) =~= keys);
        assert forall|i: int| 0 <= i < os@.len() implies #[trigger] owned_in(os@[i], r@) by {
            let ids = owned_ids(os@);
            let k = os@[i].spec.id@;
            assert(ids[i] == k);
            assert(ids.contains(k));
            assert(index.has(k));
            let j = choose|j: int| 0 <= j < keys.len() && keys[j] == k;
            index.lemma_at_index(j);
            let a = index.at(k);
            assert(a < ids.len() && ids[a as int] == k);
            if a < i { assert(ids[a as int] != ids[i]); }
            if a > i { assert(ids[i] != ids[a as int]); }
            assert(a == i);
            assert(vals[j] == a);
            assert(owned_view(r@[j]) == owned_view(os@[vals[j] as int]));
        }
        assert forall|j: int| 0 <= j < r@.len() implies #[trigger] owned_in(r@[j], os@) by {
            assert(owned_view(r@[j]) == owned_view(os@[vals[j] as int]));
        }
    }
    r
}

fn sorted_policies(ps: &[PolicySpec], index: &IdMap<usize>) -> (r: Vec<PolicySpec>)
    requires indexes(*index, policy_ids(ps@)),
    ensures
        increasing(policy_ids(r@)), policy_ids(r@) == index.keys(),
        forall|j: int| 0 <= j < r@.len() ==> index.values()[j] < ps@.len() && #[trigger] policy_view(r@[j]) == policy_view(ps@[index.values()[j] as int]),
        forall|j: int| 0 <= j < r@.len() ==> #[trigger] policy_in(r@[j], ps@),
        forall|i: int| 0 <= i < ps@.len() ==> #[trigger] policy_in(ps@[i], r@),
{
    let entries = index.entries();
    let ghost vals = index.values();
    let ghost keys = index.keys();
    proof {
        assert forall|j: int| #![trigger vals[j]] 0 <= j < keys.len() implies vals[j] < ps@.len() && policy_ids(ps@)[vals[j] as int] == keys[j] by {
            index.lemma_at_index(j);
            assert(index.has(keys[j]));
        }
    }
    let mut r: Vec<PolicySpec> = Vec::new();
    let mut t: usize = 0;
    while t < entries.len()
        invariant
            t <= entries@.len(), entries@.len() == keys.len(), keys.len() == vals.len(),
            keys == index.keys(), vals == index.values(),
            increasing(keys), indexes(*index, policy_ids(ps@)),
            forall|j: int| 0 <= j < entries@.len() ==> (#[trigger] entries@[j]).0@ == keys[j] && entries@[j].1 == vals[j],
            forall|j: int| #![trigger vals[j]] 0 <= j < keys.len() ==> vals[j] < ps@.len() && policy_ids(ps@)[vals[j] as int] == keys[j],
            r@.len() == t,
            forall|j: int| 0 <= j < t ==> #[trigger] policy_view(r@[j]) == policy_view(ps@[vals[j] as int]),
        decreases entries@.len() - t,
    {
        let at = entries[t].1;
        let ghost old_r = r@;
        r.push(ps[at].duplicate());
        proof {
            assert forall|j: int| 0 <= j < t + 1 implies #[trigger] policy_view(r@[j]) == policy_view(ps@[vals[j] as int]) by {
                if j < t { assert(r@[j] == old_r[j]); }
            }
        }
        t += 1;
    }
    proof {
        assert forall|j: int| 0 <= j < r@.len() implies #[trigger] policy_ids(r@)[j] == keys[j] by {
            assert(policy_view(r@[j]) == policy_view(ps@[vals[j] as int]));
            assert(policy_ids(ps@)[vals[j] as int] == keys[j]);
        }
        assert(policy_ids(r@) =~= keys);
        assert forall|i: int| 0 <= i < ps@.len() implies #[trigger] policy_in(ps@[i], r@) by {
            let ids = policy_ids(ps@);
            let k = ps@[i].id@;
            assert(ids[i] == k);
            assert(ids.contains(k));
            assert(index.has(k));
            let j = choose|j: int| 0 <= j < keys.len() && keys[j] == k;
            index.lemma_at_index(j);
            let a = index.at(k);
            assert(a < ids.len() && ids[a as int] == k);
            if a < i { assert(ids[a as int] != ids[i]); }
            if a > i { assert(ids[i] != ids[a as int]); }
            assert(a == i);
            assert(vals[j] == a);
            assert(policy_view(r@[j]) == policy_view(ps@[vals[j] as int]));
        }
        assert forall|j: int| 0 <= j < r@.len() implies #[trigger] policy_in(r@[j], ps@) by {
            assert(policy_view(r@[j]) == policy_view(ps@[vals[j] as int]));
        }
    }
    r
}

/// Whether a policy's source compiles against its declared inputs.
pub open spec fn policy_compiles(p: PolicySpec) -> bool {
    schema_ok(p.inputs@) && compiled(p.source@, input_views(p.inputs@)) is Ok
}

/// The type of a compiling policy's result.
pub open spec fn result_type(p: PolicySpec) -> Type {
    match compiled(p.source@, input_views(p.inputs@)) {
        Ok((nodes, root)) => nodes[root as int].ty,
        Err(_) => Type::Bool,
    }
}

fn compile_all(sorted: &[PolicySpec]) -> (r: Result<IdMap<CompiledExpression>, ProjectError>)
    requires increasing(policy_ids(sorted@)),
    ensures
        r matches Ok(c) ==> (forall|k: Seq<char>| #[trigger] c.has(k) <==> policy_ids(sorted@).contains(k))
            && (forall|k: Seq<char>| #[trigger] c.has(k) ==> c.at(k).wf())
            && forall|j: int| 0 <= j < sorted@.len() ==>
                c.at((#[trigger] sorted@[j]).id@).spec_source() == sorted@[j].source@
                && input_views(c.at(sorted@[j].id@).spec_inputs()) == input_views(sorted@[j].inputs@)
                && c.at(sorted@[j].id@).spec_type() == result_type(sorted@[j]),
        r matches Err(e) ==> e.code == "POLICY_COMPILE",
        r is Ok <==> forall|j: int| 0 <= j < sorted@.len() ==> #[trigger] policy_compiles(sorted@[j]),
        r matches Err(e) ==> exists|j: int| 0 <= j < sorted@.len() && e.subject_id() == Some(sorted@[j].id@)
            && !policy_compiles(sorted@[j]) && forall|i: int| 0 <= i < j ==> #[trigger] policy_compiles(sorted@[i]),
{
    let mut c: IdMap<CompiledExpression> = IdMap::new();
    let mut i: usize = 0;
    while i < sorted.len()
        invariant
            i <= sorted@.len(), increasing(policy_ids(sorted@)),
            forall|k: Seq<char>| #[trigger] c.has(k) <==> policy_ids(sorted@).take(i as int).contains(k),
            forall|k: Seq<char>| #[trigger] c.has(k) ==> c.at(k).wf(),
            forall|j: int| 0 <= j < i ==>
                c.at((#[trigger] sorted@[j]).id@).spec_source() == sorted@[j].source@
                && input_views(c.at(sorted@[j].id@).spec_inputs()) == input_views(sorted@[j].inputs@)
                && c.at(sorted@[j].id@).spec_type() == result_type(sorted@[j]),
            forall|j: int| 0 <= j < i ==> #[trigger] policy_compiles(sorted@[j]),
        decreases sorted@.len() - i,
    {
        let policy = &sorted[i];
        let expression = match compile_with_inputs(policy.source.as_str(), policy.inputs.as_slice()) {
            Ok(x) => x,
            Err(d) => {
                assert(!policy_compiles(sorted@[i as int]));
                return Err(ProjectError::engine("POLICY_COMPILE", Some(policy.id.as_str()), d));
            }
        };
        assert(policy_compiles(sorted@[i as int]));
        proof { use_type_invariant(&expression); }
        let ghost before = c;
        let ghost ids = policy_ids(sorted@);
        c.insert(policy.id.clone(), expression);
        proof {
            assert(ids.take(i + 1) =~= ids.take(i as int).push(policy.id@));
            assert forall|k: Seq<char>| #[trigger] c.has(k) <==> ids.take(i + 1).contains(k) by {
                lemma_contains_push(ids.take(i as int), policy.id@, k);
            }
            assert forall|j: int| 0 <= j < i + 1 implies
                c.at((#[trigger] sorted@[j]).id@).spec_source() == sorted@[j].source@
                && input_views(c.at(sorted@[j].id@).spec_inputs()) == input_views(sorted@[j].inputs@)
                && c.at(sorted@[j].id@).spec_type() == result_type(sorted@[j]) by {
                if j < i {
                    assert(ids[j] == sorted@[j].id@ && ids[i as int] == policy.id@);
                    crate::collections::lemma_seq_lt_irreflexive(ids[j]);
                    assert(ids.take(i as int)[j] == ids[j]);
                    assert(before.has(sorted@[j].id@));
                }
            }
        }
        i += 1;
    }
    assert(policy_ids(sorted@).take(sorted@.len() as int) =~= policy_ids(sorted@));
    Ok(c)
}


/// Codes with which wiring policies together fails.
pub open spec fn wiring_code(c: &'static str) -> bool {
    c == "LINK_SCHEMA" || c == "UNKNOWN_EXTERNAL" || c == "INPUT_OWNERSHIP" || c == "UNKNOWN_POLICY"
        || c == "PRIVATE_POLICY" || c == "UNDECLARED_IMPORT" || c == "LINK_TYPE"
}

fn text3(a: &str, b: &str, c: &str) -> (s: String)
    ensures s@ == a@ + b@ + c@,
{
    let mut s = String::from_str(a);
    push_str(&mut s, b);
    push_str(&mut s, c);
    s
}

/// Whether the port with ID `k` of a policy is wired to a declared external input or to a
/// policy among `d`.
pub open spec fn port_wired(links: IdMap<InputSource>, k: Seq<char>, ext: Seq<Seq<char>>, d: IdSet) -> bool {
    match links.at(k) {
        InputSource::External(e) => ext.contains(e@),
        InputSource::Policy(q) => d.has(q@),
    }
}

/// The code with which port `port` of policy `p` is refused, if it is: unconnected;
/// connected to an undeclared external input, to one another module owns, or to one of
/// another type; connected to an undeclared policy, to an unexported policy of another
/// module, to a policy of a module that `p`'s module does not import, or to a policy whose
/// result has another type.
pub open spec fn port_problem(os: Seq<OwnedInput>, ps: Seq<PolicySpec>, ms: Seq<ModuleSpec>, p: PolicySpec, port: InputSpec)
    -> Option<&'static str>
{
    if !p.links.has(port.id@) {
        Some("LINK_SCHEMA")
    } else {
        match source_view(p.links.at(port.id@)) {
            SourceView::External(e) => {
                if !owned_ids(os).contains(e) {
                    Some("UNKNOWN_EXTERNAL")
                } else if exists|i: int| 0 <= i < os.len() && #[trigger] os[i].spec.id@ == e && os[i].module@ != p.module@ {
                    Some("INPUT_OWNERSHIP")
                } else if exists|i: int| 0 <= i < os.len() && #[trigger] os[i].spec.id@ == e
                    && os[i].spec.input_type.spec_base_type() != port.input_type.spec_base_type() {
                    Some("LINK_TYPE")
                } else {
                    None
                }
            }
            SourceView::Policy(q) => {
                if !policy_ids(ps).contains(q) {
                    Some("UNKNOWN_POLICY")
                } else if exists|j: int| 0 <= j < ps.len() && #[trigger] ps[j].id@ == q && ps[j].module@ != p.module@ && !ps[j].exported {
                    Some("PRIVATE_POLICY")
                } else if exists|j: int, m: int| 0 <= j < ps.len() && 0 <= m < ms.len() && #[trigger] ps[j].id@ == q
                    && ps[j].module@ != p.module@ && #[trigger] ms[m].id@ == p.module@ && !ms[m].imports.has(ps[j].module@) {
                    Some("UNDECLARED_IMPORT")
                } else if exists|j: int| 0 <= j < ps.len() && #[trigger] ps[j].id@ == q
                    && result_type(ps[j]) != port.input_type.spec_base_type() {
                    Some("LINK_TYPE")
                } else {
                    None
                }
            }
        }
    }
}

/// Every link names a declared port, and there are as many links as ports.
pub open spec fn links_declared(p: PolicySpec) -> bool {
    &&& p.links.keys().len() == p.inputs@.len()
    &&& forall|t: int| 0 <= t < p.links.keys().len() ==> declares(p.inputs@, #[trigger] p.links.keys()[t])
}

/// The first refused port of `p`, from position `y` on, in declaration order.
pub open spec fn port_problems(os: Seq<OwnedInput>, ps: Seq<PolicySpec>, ms: Seq<ModuleSpec>, p: PolicySpec, y: nat)
    -> Option<&'static str>
    decreases p.inputs@.len() - y,
{
    if y >= p.inputs@.len() {
        None
    } else {
        match port_problem(os, ps, ms, p, p.inputs@[y as int]) {
            Some(c) => Some(c),
            None => port_problems(os, ps, ms, p, y + 1),
        }
    }
}

/// The code with which the wiring of `p` is refused, if it is.
pub open spec fn wiring_problem(os: Seq<OwnedInput>, ps: Seq<PolicySpec>, ms: Seq<ModuleSpec>, p: PolicySpec) -> Option<&'static str> {
    if !links_declared(p) { Some("LINK_SCHEMA") } else { port_problems(os, ps, ms, p, 0) }
}

/// Whether one of `p`'s ports takes the result of policy `q`.
pub open spec fn depends_on(p: PolicySpec, q: Seq<char>) -> bool {
    exists|t: int| 0 <= t < p.links.keys().len() && source_view(#[trigger] p.links.values()[t]) == SourceView::Policy(q)
}

/// Whether port `y` of `p` takes the result of policy `q`.
pub open spec fn port_takes(p: PolicySpec, y: int, q: Seq<char>) -> bool {
    p.links.has(p.inputs@[y].id@) && source_view(p.links.at(p.inputs@[y].id@)) == SourceView::Policy(q)
}

/// Checks and records the wiring of one policy: each port connected once, to an external input
/// its module owns or to a policy it may use, with the port's type.
fn wire_one(policy: &PolicySpec, compiled: &IdMap<CompiledExpression>, external: &IdMap<usize>, os: &[OwnedInput],
    pindex: &IdMap<usize>, ps: &[PolicySpec], mindex: &IdMap<usize>, ms: &[ModuleSpec]) -> (r: Result<IdSet, ProjectError>)
    requires
        indexes(*external, owned_ids(os@)), indexes(*pindex, policy_ids(ps@)), indexes(*mindex, module_ids(ms@)),
        forall|k: Seq<char>| #[trigger] pindex.has(k) ==> compiled.has(k),
        forall|j: int| 0 <= j < ps@.len() ==> compiled.at((#[trigger] ps@[j]).id@).spec_type() == result_type(ps@[j]),
        mindex.has(policy.module@),
    ensures
        r matches Ok(d) ==> (forall|q: Seq<char>| #[trigger] d.has(q) ==> pindex.has(q))
            && forall|t: int| 0 <= t < policy.links.keys().len() ==>
                port_wired(policy.links, #[trigger] policy.links.keys()[t], external.keys(), d),
        r matches Err(e) ==> wiring_code(e.code),
        (match wiring_problem(os@, ps@, ms@, *policy) {
            None => r matches Ok(d) && forall|q: Seq<char>| #[trigger] d.has(q) <==> depends_on(*policy, q),
            Some(c) => r matches Err(e) && e.is(c, Some(policy.id@)),
        }),
{
    let pid = policy.id.as_str();
    let _ = policy.links.entries();
    if policy.links.len() != policy.inputs.len() {
        return Err(ProjectError::new("LINK_SCHEMA", Some(pid), String::from_str("Connect every declared local port, with no extra port IDs.")));
    }
    let lentries = policy.links.entries();
    let mut t: usize = 0;
    while t < lentries.len()
        invariant
            t <= lentries@.len(), lentries@.len() == policy.links.keys().len(),
            pid@ == policy.id@,
            forall|x: int| 0 <= x < lentries@.len() ==> (#[trigger] lentries@[x]).0@ == policy.links.keys()[x],
            forall|x: int| 0 <= x < t ==> declares(policy.inputs@, #[trigger] policy.links.keys()[x]),
        decreases lentries@.len() - t,
    {
        let mut found = false;
        let mut j: usize = 0;
        while j < policy.inputs.len()
            invariant
                j <= policy.inputs@.len(), t < lentries@.len(),
                found <==> exists|y: int| 0 <= y < j && (#[trigger] policy.inputs@[y]).id@ == lentries@[t as int].0@,
            decreases policy.inputs@.len() - j,
        {
            if !found && str_equal(policy.inputs[j].id.as_str(), lentries[t].0.as_str()) {
                found = true;
            }
            j += 1;
        }
        if !found {
            assert(!declares(policy.inputs@, policy.links.keys()[t as int]));
            return Err(ProjectError::new("LINK_SCHEMA", Some(pid), String::from_str("Connect every declared local port, with no extra port IDs.")));
        }
        t += 1;
    }
    assert(links_declared(*policy));
    let ghost goal = wiring_problem(os@, ps@, ms@, *policy);
    let mut d = IdSet::new();
    let mut j: usize = 0;
    while j < policy.inputs.len()
        invariant
            j <= policy.inputs@.len(),
            indexes(*external, owned_ids(os@)), indexes(*pindex, policy_ids(ps@)), indexes(*mindex, module_ids(ms@)),
            forall|k: Seq<char>| #[trigger] pindex.has(k) ==> compiled.has(k),
            forall|i: int| 0 <= i < ps@.len() ==> compiled.at((#[trigger] ps@[i]).id@).spec_type() == result_type(ps@[i]),
            mindex.has(policy.module@),
            links_declared(*policy),
            pid@ == policy.id@,
            goal == wiring_problem(os@, ps@, ms@, *policy),
            goal == port_problems(os@, ps@, ms@, *policy, j as nat),
            forall|q: Seq<char>| #[trigger] d.has(q) ==> pindex.has(q),
            forall|q: Seq<char>| #[trigger] d.has(q) <==> exists|y: int| 0 <= y < j && #[trigger] port_takes(*policy, y, q),
            forall|y: int| 0 <= y < j ==> port_wired(policy.links, (#[trigger] policy.inputs@[y]).id@, external.keys(), d),
        decreases policy.inputs@.len() - j,
    {
        let port = &policy.inputs[j];
        let connection = match policy.links.get(port.id.as_str()) {
            Some(c) => c,
            None => {
                return Err(ProjectError::new("LINK_SCHEMA", Some(pid), String::from_str("Missing local port connection.")));
            }
        };
        let ghost before = d;
        let actual: Type = match connection {
            InputSource::External(id) => {
                let at = match external.get(id.as_str()) {
                    Some(x) => *x,
                    None => {
                        return Err(ProjectError::new("UNKNOWN_EXTERNAL", Some(pid), text3("Unknown external input ", id.as_str(), ".")));
                    }
                };
                proof {
                    assert(owned_ids(os@)[at as int] == id@);
                    assert forall|i: int| 0 <= i < os@.len() && #[trigger] os@[i].spec.id@ == id@ implies i == at by {
                        assert(owned_ids(os@)[i] == id@);
                    }
                }
                if !str_equal(os[at].module.as_str(), policy.module.as_str()) {
                    let mut m = text3(id.as_str(), " is owned by ", os[at].module.as_str());
                    push_str(&mut m, "; publish a policy result instead.");
                    return Err(ProjectError::new("INPUT_OWNERSHIP", Some(pid), m));
                }
                os[at].spec.input_type.base_type()
            }
            InputSource::Policy(id) => {
                let at = match pindex.get(id.as_str()) {
                    Some(x) => *x,
                    None => {
                        return Err(ProjectError::new("UNKNOWN_POLICY", Some(pid), text3("Unknown policy ", id.as_str(), ".")));
                    }
                };
                proof {
                    assert(policy_ids(ps@)[at as int] == id@);
                    assert forall|i: int| 0 <= i < ps@.len() && #[trigger] ps@[i].id@ == id@ implies i == at by {
                        assert(policy_ids(ps@)[i] == id@);
                    }
                }
                let provider = &ps[at];
                if !str_equal(provider.module.as_str(), policy.module.as_str()) {
                    if !provider.exported {
                        return Err(ProjectError::new("PRIVATE_POLICY", Some(pid), text3("Policy ", id.as_str(), " is not exported.")));
                    }
                    let mi = match mindex.get(policy.module.as_str()) { Some(x) => *x, None => { return Err(ProjectError::new("UNDECLARED_IMPORT", Some(pid), String::from_str("Unknown module."))); } };
                    proof {
                        assert(module_ids(ms@)[mi as int] == policy.module@);
                        assert forall|m: int| 0 <= m < ms@.len() && #[trigger] ms@[m].id@ == policy.module@ implies m == mi by {
                            assert(module_ids(ms@)[m] == policy.module@);
                        }
                    }
                    if !ms[mi].imports.contains(provider.module.as_str()) {
                        let mut m = text3("Module ", policy.module.as_str(), " must explicitly import ");
                        push_str(&mut m, provider.module.as_str());
                        push_str(&mut m, ".");
                        return Err(ProjectError::new("UNDECLARED_IMPORT", Some(pid), m));
                    }
                }
                d.insert(id.clone());
                match compiled.get(id.as_str()) {
                    Some(e) => e.value_type(),
                    None => { return Err(ProjectError::new("UNKNOWN_POLICY", Some(pid), text3("Unknown policy ", id.as_str(), "."))); }
                }
            }
        };
        if actual != port.input_type.base_type() {
            return Err(ProjectError::new("LINK_TYPE", Some(pid), text3("Input ", port.id.as_str(), " has an incompatible provider type.")));
        }
        proof {
            assert forall|y: int| 0 <= y < j + 1 implies port_wired(policy.links, (#[trigger] policy.inputs@[y]).id@, external.keys(), d) by {
                if y < j {
                    assert(port_wired(policy.links, policy.inputs@[y].id@, external.keys(), before));
                }
            }
            assert forall|q: Seq<char>| #[trigger] d.has(q) <==> exists|y: int| 0 <= y < j + 1 && #[trigger] port_takes(*policy, y, q) by {
                if d.has(q) && !before.has(q) {
                    assert(port_takes(*policy, j as int, q));
                }
                if exists|y: int| 0 <= y < j + 1 && #[trigger] port_takes(*policy, y, q) {
                    let y = choose|y: int| 0 <= y < j + 1 && #[trigger] port_takes(*policy, y, q);
                    if y == j {
                        assert(d.has(q));
                    }
                }
            }
        }
        j += 1;
    }
    proof {
        assert forall|t: int| 0 <= t < policy.links.keys().len() implies
            port_wired(policy.links, #[trigger] policy.links.keys()[t], external.keys(), d) by {
            assert(declares(policy.inputs@, policy.links.keys()[t]));
            let y = choose|y: int| 0 <= y < policy.inputs@.len() && (#[trigger] policy.inputs@[y]).id@ == policy.links.keys()[t];
            assert(port_wired(policy.links, policy.inputs@[y].id@, external.keys(), d));
        }
        assert forall|q: Seq<char>| #[trigger] d.has(q) <==> depends_on(*policy, q) by {
            if d.has(q) {
                let y = choose|y: int| 0 <= y < policy.inputs@.len() && #[trigger] port_takes(*policy, y, q);
                let k = policy.inputs@[y].id@;
                let t = choose|t: int| 0 <= t < policy.links.keys().len() && policy.links.keys()[t] == k;
                policy.links.lemma_at_index(t);
                assert(source_view(policy.links.values()[t]) == SourceView::Policy(q));
            }
            if depends_on(*policy, q) {
                let t = choose|t: int| 0 <= t < policy.links.keys().len() && source_view(#[trigger] policy.links.values()[t]) == SourceView::Policy(q);
                policy.links.lemma_at_index(t);
                assert(declares(policy.inputs@, policy.links.keys()[t]));
                let y = choose|y: int| 0 <= y < policy.inputs@.len() && (#[trigger] policy.inputs@[y]).id@ == policy.links.keys()[t];
                assert(port_takes(*policy, y, q));
            }
        }
    }
    Ok(d)
}


fn wire(sorted: &[PolicySpec], compiled: &IdMap<CompiledExpression>, external: &IdMap<usize>, os: &[OwnedInput],
    pindex: &IdMap<usize>, ps: &[PolicySpec], mindex: &IdMap<usize>, ms: &[ModuleSpec]) -> (r: Result<Graph, ProjectError>)
    requires
        increasing(policy_ids(sorted@)), policy_ids(sorted@) == pindex.keys(),
        indexes(*external, owned_ids(os@)), indexes(*pindex, policy_ids(ps@)), indexes(*mindex, module_ids(ms@)),
        forall|k: Seq<char>| #[trigger] pindex.has(k) ==> compiled.has(k),
        forall|j: int| 0 <= j < ps@.len() ==> compiled.at((#[trigger] ps@[j]).id@).spec_type() == result_type(ps@[j]),
        forall|j: int| 0 <= j < sorted@.len() ==> mindex.has((#[trigger] sorted@[j]).module@),
    ensures
        r matches Ok(g) ==> closed_graph(g) && (forall|k: Seq<char>| #[trigger] g.has(k) <==> policy_ids(sorted@).contains(k))
            && forall|j: int| 0 <= j < sorted@.len() ==> links_wired(#[trigger] sorted@[j], g, external.keys()),
        r matches Err(e) ==> wiring_code(e.code),
        r is Ok <==> forall|j: int| 0 <= j < sorted@.len() ==> #[trigger] wiring_problem(os@, ps@, ms@, sorted@[j]) is None,
        r matches Err(e) ==> exists|j: int| 0 <= j < sorted@.len() && wiring_problem(os@, ps@, ms@, sorted@[j]) == Some(e.code)
            && e.subject_id() == Some(sorted@[j].id@)
            && forall|i: int| 0 <= i < j ==> #[trigger] wiring_problem(os@, ps@, ms@, sorted@[i]) is None,
        r matches Ok(g) ==> forall|j: int, q: Seq<char>| 0 <= j < sorted@.len() ==>
            (#[trigger] g.at(sorted@[j].id@).has(q) <==> depends_on(sorted@[j], q)),
{
    let mut g: Graph = IdMap::new();
    let mut i: usize = 0;
    while i < sorted.len()
        invariant
            i <= sorted@.len(), increasing(policy_ids(sorted@)), policy_ids(sorted@) == pindex.keys(),
            indexes(*external, owned_ids(os@)), indexes(*pindex, policy_ids(ps@)), indexes(*mindex, module_ids(ms@)),
            forall|k: Seq<char>| #[trigger] pindex.has(k) ==> compiled.has(k),
            forall|j: int| 0 <= j < ps@.len() ==> compiled.at((#[trigger] ps@[j]).id@).spec_type() == result_type(ps@[j]),
            forall|j: int| 0 <= j < sorted@.len() ==> mindex.has((#[trigger] sorted@[j]).module@),
            forall|k: Seq<char>| #[trigger] g.has(k) <==> policy_ids(sorted@).take(i as int).contains(k),
            forall|k: Seq<char>, q: Seq<char>| #![trigger g.at(k).has(q)] g.has(k) && g.at(k).has(q) ==> pindex.has(q),
            forall|j: int| 0 <= j < i ==> links_wired(#[trigger] sorted@[j], g, external.keys()),
            forall|j: int| 0 <= j < i ==> #[trigger] wiring_problem(os@, ps@, ms@, sorted@[j]) is None,
            forall|j: int, q: Seq<char>| 0 <= j < i ==> (#[trigger] g.at(sorted@[j].id@).has(q) <==> depends_on(sorted@[j], q)),
        decreases sorted@.len() - i,
    {
        let policy = &sorted[i];
        let d = match wire_one(policy, compiled, external, os, pindex, ps, mindex, ms) {
            Ok(d) => d,
            Err(e) => { return Err(e); }
        };
        let _ = policy.links.entries();
        let ghost before = g;
        let ghost ids = policy_ids(sorted@);
        g.insert(policy.id.clone(), d);
        proof {
            assert(ids.take(i + 1) =~= ids.take(i as int).push(policy.id@));
            assert forall|k: Seq<char>| #[trigger] g.has(k) <==> ids.take(i + 1).contains(k) by {
                lemma_contains_push(ids.take(i as int), policy.id@, k);
            }
            assert forall|k: Seq<char>, q: Seq<char>| #![trigger g.at(k).has(q)] g.has(k) && g.at(k).has(q) implies pindex.has(q) by {
                if k != policy.id@ { assert(before.has(k)); }
            }
            assert forall|j: int, q: Seq<char>| 0 <= j < i + 1 implies
                (#[trigger] g.at(sorted@[j].id@).has(q) <==> depends_on(sorted@[j], q)) by {
                if j < i {
                    assert(ids[j] == sorted@[j].id@ && ids[i as int] == policy.id@);
                    crate::collections::lemma_seq_lt_irreflexive(ids[j]);
                    assert(ids.take(i as int)[j] == ids[j]);
                    assert(before.has(sorted@[j].id@));
                }
            }
            assert forall|j: int| 0 <= j < i + 1 implies links_wired(#[trigger] sorted@[j], g, external.keys()) by {
                let p = sorted@[j];
                if j < i {
                    assert(ids[j] == p.id@ && ids[i as int] == policy.id@);
                    crate::collections::lemma_seq_lt_irreflexive(ids[j]);
                    assert(ids.take(i as int)[j] == ids[j]);
                    assert(before.has(p.id@));
                    assert(deps(g, p.id@) == deps(before, p.id@));
                    assert(links_wired(p, before, external.keys()));
                } else {
                    assert forall|t: int| 0 <= t < p.links.keys().len() implies match #[trigger] p.links.values()[t] {
                        InputSource::External(e) => external.keys().contains(e@),
                        InputSource::Policy(q) => deps(g, p.id@).has(q@),
                    } by {
                        p.links.lemma_at_index(t);
                        assert(port_wired(p.links, p.links.keys()[t], external.keys(), d));
                    }
                }
            }
        }
        i += 1;
    }
    let _ = g.entries();
    proof {
        assert(policy_ids(sorted@).take(sorted@.len() as int) =~= policy_ids(sorted@));
        assert forall|x: int, q: Seq<char>| #![trigger g.values()[x].has(q)] 0 <= x < g.keys().len() && g.values()[x].has(q) implies g.has(q) by {
            g.lemma_at_index(x);
            assert(g.at(g.keys()[x]).has(q));
            assert(pindex.has(q));
        }
    }
    Ok(g)
}

/// The internal name the external-input validator gives the input at position `t`.
pub open spec fn argument_name(t: nat) -> Seq<char> {
    "argument_"@ + decimal(t)
}

/// An all-ASCII text takes one UTF-8 byte per character.
proof fn lemma_utf8_len_ascii(s: Seq<char>)
    requires forall|i: int| 0 <= i < s.len() ==> (#[trigger] s[i] as u32) < 0x80,
    ensures utf8_len(s) == s.len(),
    decreases s.len(),
{
    if s.len() > 0 {
        assert forall|i: int| 0 <= i < s.drop_last().len() implies (#[trigger] s.drop_last()[i] as u32) < 0x80 by {
            assert(s.drop_last()[i] == s[i]);
        }
        lemma_utf8_len_ascii(s.drop_last());
        assert((s.last() as u32) < 0x80);
    }
}

/// Argument names are valid input names.
proof fn lemma_argument_name(t: nat)
    requires t < 1000,
    ensures spec_valid_name(argument_name(t)), argument_name(t).len() >= 10,
{
    reveal_strlit("argument_");
    lemma_decimal_digits(t);
    let pre = "argument_"@;
    assert(pre == seq!['a', 'r', 'g', 'u', 'm', 'e', 'n', 't', '_']);
    let n = argument_name(t);
    let d = decimal(t);
    assert(n.len() == 9 + d.len());
    assert forall|i: int| 0 <= i < n.len() implies (#[trigger] n[i] as u32) < 0x80 by {
        if i >= 9 { assert(n[i] == d[i - 9]); }
    }
    lemma_utf8_len_ascii(n);
    assert(n[0] == 'a');
    assert forall|i: int| 1 <= i < n.len() implies crate::text::is_word_char(#[trigger] n[i]) by {
        if i >= 9 { assert(n[i] == d[i - 9]); assert(crate::text::is_ascii_digit(d[i - 9])); }
    }
    assert(!crate::inputs::is_reserved(n)) by {
        assert(n.len() != seq!['i', 'f'].len());
        assert(n.len() != seq!['t', 'h', 'e', 'n'].len());
        assert(n.len() != seq!['f', 'a', 'l', 's', 'e'].len());
        assert(n.len() != seq!['a', 'n', 'd'].len());
    }
}

/// Distinct positions get distinct argument names.
proof fn lemma_argument_names_distinct(a: nat, b: nat)
    requires a != b,
    ensures argument_name(a) != argument_name(b),
{
    reveal_strlit("argument_");
    if argument_name(a) == argument_name(b) {
        let pa = argument_name(a);
        let pb = argument_name(b);
        assert(pa.subrange(9, pa.len() as int) =~= decimal(a));
        assert(pb.subrange(9, pb.len() as int) =~= decimal(b));
        lemma_decimal_injective(a, b);
    }
}

/// The inputs `v` of a validator of the declared external inputs `os`: their IDs and types,
/// in order.
pub open spec fn validator_of(v: Seq<InputSpec>, os: Seq<OwnedInput>) -> bool {
    &&& v.len() == os.len()
    &&& forall|j: int| 0 <= j < os.len() ==> (#[trigger] v[j]).id@ == os[j].spec.id@ && v[j].input_type == os[j].spec.input_type
}

fn validator(inputs: &[OwnedInput]) -> (r: Result<CompiledExpression, ProjectError>)
    requires
        inputs@.len() <= MAX_INPUTS,
        increasing(owned_ids(inputs@)),
        forall|t: int| 0 <= t < inputs@.len() ==> schema_ok(seq![(#[trigger] inputs@[t]).spec]),
    ensures
        r matches Ok(v) ==> spec_input_ids(v.spec_inputs()) == owned_ids(inputs@) && validator_of(v.spec_inputs(), inputs@),
        r is Ok,
{
    let mut specs: Vec<InputSpec> = Vec::new();
    let mut t: usize = 0;
    while t < inputs.len()
        invariant
            t <= inputs@.len(), specs@.len() == t, inputs@.len() <= MAX_INPUTS,
            forall|t: int| 0 <= t < inputs@.len() ==> schema_ok(seq![(#[trigger] inputs@[t]).spec]),
            forall|j: int| 0 <= j < t ==> (#[trigger] specs@[j]).id@ == inputs@[j].spec.id@
                && specs@[j].name@ == argument_name(j as nat) && spec_valid_id(specs@[j].id@)
                && specs@[j].input_type == inputs@[j].spec.input_type,
        decreases inputs@.len() - t,
    {
        let mut name = String::from_str("argument_");
        write_decimal(&mut name, t as u64);
        proof {
            assert(schema_ok(seq![inputs@[t as int].spec]));
            assert(seq![inputs@[t as int].spec][0] == inputs@[t as int].spec);
        }
        specs.push(InputSpec::new(inputs[t].spec.id.as_str(), name.as_str(), inputs[t].spec.input_type));
        t += 1;
    }
    proof {
        assert forall|i: int| 0 <= i < specs@.len() implies spec_valid_id((#[trigger] specs@[i]).id@) && spec_valid_name(specs@[i].name@) by {
            lemma_argument_name(i as nat);
        }
        assert forall|i: int, j: int| 0 <= i < j < specs@.len() implies
            (#[trigger] specs@[i]).id@ != (#[trigger] specs@[j]).id@ && specs@[i].name@ != specs@[j].name@ by {
            let ids = owned_ids(inputs@);
            assert(ids[i] == specs@[i].id@ && ids[j] == specs@[j].id@);
            assert(crate::text::seq_lt(ids[i], ids[j]));
            crate::collections::lemma_seq_lt_irreflexive(ids[i]);
            lemma_argument_names_distinct(i as nat, j as nat);
        }
        assert(schema_ok(specs@));
        crate::syntax::lemma_true_compiles(input_views(specs@));
    }
    let v = match compile_with_inputs("true", specs.as_slice()) {
        Ok(v) => v,
        Err(d) => { return Err(ProjectError::engine("PROJECT_INPUT_SCHEMA", None, d)); }
    };
    proof {
        assert(input_views(v.spec_inputs()).len() == v.spec_inputs().len());
        assert(input_views(specs@).len() == specs@.len());
        assert forall|j: int| 0 <= j < inputs@.len() implies #[trigger] spec_input_ids(v.spec_inputs())[j] == owned_ids(inputs@)[j]
            && v.spec_inputs()[j].input_type == inputs@[j].spec.input_type by {
            assert(input_views(v.spec_inputs())[j] == input_views(specs@)[j]);
            assert(specs@[j].id@ == inputs@[j].spec.id@);
        }
        assert(spec_input_ids(v.spec_inputs()) =~= owned_ids(inputs@));
        assert(v.spec_inputs().len() == spec_input_ids(v.spec_inputs()).len());
        assert forall|j: int| 0 <= j < inputs@.len() implies (#[trigger] v.spec_inputs()[j]).id@ == inputs@[j].spec.id@
            && v.spec_inputs()[j].input_type == inputs@[j].spec.input_type by {
            assert(spec_input_ids(v.spec_inputs())[j] == owned_ids(inputs@)[j]);
        }
    }
    Ok(v)
}

/// `k` is the ID of a policy of `ps` for which `bad` holds, and no policy for which it
/// holds has a smaller ID (in code-point order).
pub open spec fn least_failing(ps: Seq<PolicySpec>, bad: spec_fn(PolicySpec) -> bool, k: Seq<char>) -> bool {
    &&& exists|j: int| 0 <= j < ps.len() && #[trigger] ps[j].id@ == k && bad(ps[j])
    &&& forall|j: int| #![trigger ps[j]] 0 <= j < ps.len() && bad(ps[j]) ==> !seq_lt(ps[j].id@, k)
}

/// `k` is the ID of a policy of `ps` that takes the result of a policy of `s`.
pub open spec fn depends_into(ps: Seq<PolicySpec>, s: Set<Seq<char>>, k: Seq<char>) -> bool {
    exists|j: int, d: Seq<char>| 0 <= j < ps.len() && ps[j].id@ == k && #[trigger] depends_on(ps[j], d) && s.contains(d)
}

/// A nonempty set of policy IDs each of which takes the result of a policy of the set.
pub open spec fn policy_cycle(ps: Seq<PolicySpec>, s: Set<Seq<char>>) -> bool {
    &&& exists|k: Seq<char>| s.contains(k)
    &&& forall|k: Seq<char>| #![trigger depends_into(ps, s, k)] s.contains(k) ==> depends_into(ps, s, k)
}

/// No policies take one another's results in a cycle.
pub open spec fn policies_acyclic(ps: Seq<PolicySpec>) -> bool {
    forall|s: Set<Seq<char>>| !policy_cycle(ps, s)
}

/// Whether a project's declarations are acceptable: counts, module metadata and IDs,
/// imports without cycles, external inputs, and policy metadata, IDs and source sizes.
pub open spec fn declarations_ok(s: ProjectSpec) -> bool {
    let ms = s.modules@;
    &&& counts_ok(s)
    &&& bad_module(ms, 0) is None
    &&& bad_import(ms, 0) is None
    &&& modules_acyclic(ms)
    &&& bad_input(s.inputs@, module_ids(ms), 0) is None
    &&& bad_policy(s.policies@, module_ids(ms), 0, 0) is None
}

/// Whether every policy compiles and is correctly wired, with no cycle among policies.
pub open spec fn policies_ok(s: ProjectSpec) -> bool {
    let ms = s.modules@;
    let os = s.inputs@;
    let ps = s.policies@;
    &&& forall|j: int| 0 <= j < ps.len() ==> #[trigger] policy_compiles(ps[j])
    &&& forall|j: int| 0 <= j < ps.len() ==> #[trigger] wiring_problem(os, ps, ms, ps[j]) is None
    &&& policies_acyclic(ps)
}

/// Whether a project compiles: acceptable declarations, every policy compiling and
/// correctly wired, and no cycle among policies.
pub open spec fn project_valid(s: ProjectSpec) -> bool {
    declarations_ok(s) && policies_ok(s)
}

/// Whether checking the declarations refuses them with `code` about `subject`: the first
/// check that fails decides — counts; module metadata and IDs, in declaration order;
/// imports; import cycles; external inputs, in declaration order; policy metadata, IDs and
/// source sizes, in declaration order.
pub open spec fn declaration_refusal(s: ProjectSpec, code: &'static str, subject: Option<Seq<char>>) -> bool {
    let ms = s.modules@;
    let os = s.inputs@;
    let ps = s.policies@;
    if !counts_ok(s) {
        code == "PROJECT_SCHEMA" && subject is None
    } else if bad_module(ms, 0) is Some {
        code == "PROJECT_SCHEMA" && subject == bad_module(ms, 0)
    } else if bad_import(ms, 0) is Some {
        code == "PROJECT_SCHEMA" && subject == bad_import(ms, 0)
    } else if !modules_acyclic(ms) {
        code == "MODULE_CYCLE" && subject is None
    } else if bad_input(os, module_ids(ms), 0) is Some {
        let (c, id) = bad_input(os, module_ids(ms), 0)->0;
        code == c && subject == Some(id)
    } else {
        let (c, id) = bad_policy(ps, module_ids(ms), 0, 0)->0;
        code == c && subject == id && bad_policy(ps, module_ids(ms), 0, 0) is Some
    }
}

/// Whether compiling and wiring the policies refuses them with `code` about `subject`:
/// compilation, then wiring, of the policy with the least ID that fails it; else a cycle.
pub open spec fn policies_refusal(s: ProjectSpec, code: &'static str, subject: Option<Seq<char>>) -> bool {
    let ms = s.modules@;
    let os = s.inputs@;
    let ps = s.policies@;
    if exists|j: int| 0 <= j < ps.len() && !#[trigger] policy_compiles(ps[j]) {
        &&& code == "POLICY_COMPILE"
        &&& subject matches Some(k) && least_failing(ps, |p: PolicySpec| !policy_compiles(p), k)
    } else if exists|j: int| 0 <= j < ps.len() && #[trigger] wiring_problem(os, ps, ms, ps[j]) is Some {
        subject matches Some(k) && least_failing(ps, |p: PolicySpec| wiring_problem(os, ps, ms, p) is Some, k)
            && exists|j: int| 0 <= j < ps.len() && ps[j].id@ == k && #[trigger] wiring_problem(os, ps, ms, ps[j]) == Some(code)
    } else {
        code == "POLICY_CYCLE" && subject is None && !policies_acyclic(ps)
    }
}

/// Whether compiling the project refuses it with `code` about `subject`: a refusal of its
/// declarations, else of its policies.
pub open spec fn project_refusal(s: ProjectSpec, code: &'static str, subject: Option<Seq<char>>) -> bool {
    if !declarations_ok(s) { declaration_refusal(s, code, subject) } else { policies_refusal(s, code, subject) }
}

/// The stages that read a list of module IDs read it only as a set.
proof fn lemma_bad_input_keys(os: Seq<OwnedInput>, a: Seq<Seq<char>>, b: Seq<Seq<char>>, i: nat)
    requires forall|x: Seq<char>| a.contains(x) == b.contains(x),
    ensures bad_input(os, a, i) == bad_input(os, b, i),
    decreases os.len() - i,
{
    if i < os.len() {
        assert(a.contains(os[i as int].module@) == b.contains(os[i as int].module@));
        lemma_bad_input_keys(os, a, b, i + 1);
    }
}

proof fn lemma_bad_policy_keys(ps: Seq<PolicySpec>, a: Seq<Seq<char>>, b: Seq<Seq<char>>, i: nat, units: nat)
    requires forall|x: Seq<char>| a.contains(x) == b.contains(x),
    ensures bad_policy(ps, a, i, units) == bad_policy(ps, b, i, units),
    decreases ps.len() - i,
{
    if i < ps.len() {
        assert(a.contains(ps[i as int].module@) == b.contains(ps[i as int].module@));
        lemma_bad_policy_keys(ps, a, b, i + 1, units + utf16_len(ps[i as int].source@));
    }
}

/// Two policies with the same view link each port ID alike.
proof fn lemma_links_at_view(a: PolicySpec, b: PolicySpec, k: Seq<char>)
    requires policy_view(a) == policy_view(b), a.links.has(k),
    ensures b.links.has(k), source_view(a.links.at(k)) == source_view(b.links.at(k)),
{
    assert(links_view(a.links) == links_view(b.links));
    assert(a.links.keys() == b.links.keys());
    let i = a.links.index_of(k);
    assert(i == b.links.index_of(k));
    a.links.lemma_lengths();
    b.links.lemma_lengths();
    assert(0 <= i < a.links.keys().len());
    assert(links_view(a.links).1[i] == source_view(a.links.values()[i]));
    assert(links_view(b.links).1[i] == source_view(b.links.values()[i]));
}

proof fn lemma_port_problems_view(os: Seq<OwnedInput>, ps: Seq<PolicySpec>, ms: Seq<ModuleSpec>, a: PolicySpec, b: PolicySpec, y: nat)
    requires policy_view(a) == policy_view(b),
    ensures port_problems(os, ps, ms, a, y) == port_problems(os, ps, ms, b, y),
    decreases a.inputs@.len() - y,
{
    assert(input_views(a.inputs@) == input_views(b.inputs@));
    assert(a.inputs@.len() == input_views(a.inputs@).len());
    assert(b.inputs@.len() == input_views(b.inputs@).len());
    if y < a.inputs@.len() {
        let pa = a.inputs@[y as int];
        let pb = b.inputs@[y as int];
        assert(input_views(a.inputs@)[y as int] == input_views(b.inputs@)[y as int]);
        assert(pa.id@ == pb.id@ && pa.input_type == pb.input_type);
        assert(links_view(a.links) == links_view(b.links));
        if a.links.has(pa.id@) {
            lemma_links_at_view(a, b, pa.id@);
        }
        if b.links.has(pa.id@) {
            lemma_links_at_view(b, a, pa.id@);
        }
        assert(port_problem(os, ps, ms, a, pa) == port_problem(os, ps, ms, b, pb));
        lemma_port_problems_view(os, ps, ms, a, b, y + 1);
    }
}

/// What the stages decide of a policy depends only on what the policy is.
proof fn lemma_policy_view_stages(os: Seq<OwnedInput>, ps: Seq<PolicySpec>, ms: Seq<ModuleSpec>, a: PolicySpec, b: PolicySpec)
    requires policy_view(a) == policy_view(b),
    ensures
        a.id@ == b.id@,
        policy_compiles(a) == policy_compiles(b),
        result_type(a) == result_type(b),
        wiring_problem(os, ps, ms, a) == wiring_problem(os, ps, ms, b),
        forall|q: Seq<char>| depends_on(a, q) == depends_on(b, q),
{
    assert(input_views(a.inputs@) == input_views(b.inputs@));
    if schema_ok(a.inputs@) { crate::inputs::lemma_schema_views(a.inputs@, b.inputs@); }
    if schema_ok(b.inputs@) { crate::inputs::lemma_schema_views(b.inputs@, a.inputs@); }
    assert(links_view(a.links) == links_view(b.links));
    assert(a.links.keys() == b.links.keys());
    assert(a.inputs@.len() == input_views(a.inputs@).len());
    assert(b.inputs@.len() == input_views(b.inputs@).len());
    assert forall|t: int| 0 <= t < a.links.keys().len() implies
        declares(a.inputs@, #[trigger] a.links.keys()[t]) == declares(b.inputs@, b.links.keys()[t]) by {
        let k = a.links.keys()[t];
        if declares(a.inputs@, k) {
            let y = choose|y: int| 0 <= y < a.inputs@.len() && (#[trigger] a.inputs@[y]).id@ == k;
            assert(input_views(a.inputs@)[y] == input_views(b.inputs@)[y]);
            assert(b.inputs@[y].id@ == k);
        }
        if declares(b.inputs@, k) {
            let y = choose|y: int| 0 <= y < b.inputs@.len() && (#[trigger] b.inputs@[y]).id@ == k;
            assert(input_views(a.inputs@)[y] == input_views(b.inputs@)[y]);
            assert(a.inputs@[y].id@ == k);
        }
    }
    assert(links_declared(a) == links_declared(b));
    lemma_port_problems_view(os, ps, ms, a, b, 0);
    a.links.lemma_lengths();
    b.links.lemma_lengths();
    assert forall|q: Seq<char>| depends_on(a, q) == depends_on(b, q) by {
        if depends_on(a, q) {
            let t = choose|t: int| 0 <= t < a.links.keys().len() && source_view(#[trigger] a.links.values()[t]) == SourceView::Policy(q);
            assert(links_view(a.links).1[t] == links_view(b.links).1[t]);
            assert(source_view(b.links.values()[t]) == SourceView::Policy(q));
        }
        if depends_on(b, q) {
            let t = choose|t: int| 0 <= t < b.links.keys().len() && source_view(#[trigger] b.links.values()[t]) == SourceView::Policy(q);
            assert(links_view(a.links).1[t] == links_view(b.links).1[t]);
            assert(source_view(a.links.values()[t]) == SourceView::Policy(q));
        }
    }
}

/// The facts that tie a dependency graph to its policies.
pub open spec fn dep_graph_of(g: Graph, ps: Seq<PolicySpec>) -> bool {
    &&& forall|k: Seq<char>| #[trigger] g.has(k) <==> policy_ids(ps).contains(k)
    &&& forall|j: int, q: Seq<char>| 0 <= j < ps.len() ==> (#[trigger] g.at(ps[j].id@).has(q) <==> depends_on(ps[j], q))
}

proof fn lemma_stuck_is_policy_cycle(ps: Seq<PolicySpec>, g: Graph, s: Set<Seq<char>>)
    requires dep_graph_of(g, ps), stuck(g, s),
    ensures policy_cycle(ps, s),
{
    assert forall|k: Seq<char>| s.contains(k) implies #[trigger] depends_into(ps, s, k) by {
        assert(g.has(k));
        let ids = policy_ids(ps);
        assert(ids.contains(k));
        let j = choose|j: int| 0 <= j < ids.len() && ids[j] == k;
        let d = choose|d: Seq<char>| deps(g, k).has(d) && s.contains(d);
        assert(g.at(ps[j].id@).has(d));
        assert(depends_on(ps[j], d));
    }
}

proof fn lemma_policy_cycle_is_stuck(ps: Seq<PolicySpec>, g: Graph, s: Set<Seq<char>>)
    requires dep_graph_of(g, ps), policy_cycle(ps, s),
    ensures stuck(g, s),
{
    assert forall|k: Seq<char>| #![trigger deps(g, k)] s.contains(k) implies exists|d: Seq<char>| deps(g, k).has(d) && s.contains(d) by {
        assert(depends_into(ps, s, k));
        let (j, d) = choose|j: int, d: Seq<char>| 0 <= j < ps.len() && ps[j].id@ == k && #[trigger] depends_on(ps[j], d) && s.contains(d);
        assert(g.at(ps[j].id@).has(d));
        assert(deps(g, k).has(d));
    }
    assert forall|k: Seq<char>| s.contains(k) implies g.has(k) by {
        assert(depends_into(ps, s, k));
        let (j, d) = choose|j: int, d: Seq<char>| 0 <= j < ps.len() && ps[j].id@ == k && #[trigger] depends_on(ps[j], d) && s.contains(d);
        assert(policy_ids(ps)[j] == k);
        assert(policy_ids(ps).contains(k));
    }
}

/// The dependency graph of the policies is acyclic exactly when no policies take one
/// another's results in a cycle.
proof fn lemma_dep_graph_acyclic(ps: Seq<PolicySpec>, g: Graph)
    requires dep_graph_of(g, ps),
    ensures acyclic(g) <==> policies_acyclic(ps),
{
    if acyclic(g) {
        assert forall|s: Set<Seq<char>>| !policy_cycle(ps, s) by {
            if policy_cycle(ps, s) { lemma_policy_cycle_is_stuck(ps, g, s); }
        }
    }
    if policies_acyclic(ps) {
        assert forall|s: Set<Seq<char>>| !stuck(g, s) by {
            if stuck(g, s) { lemma_stuck_is_policy_cycle(ps, g, s); }
        }
    }
}

/// Policies listed by increasing ID, and the same policies in any order.
pub open spec fn same_policies(sorted: Seq<PolicySpec>, ps: Seq<PolicySpec>) -> bool {
    &&& increasing(policy_ids(sorted))
    &&& forall|x: int| 0 <= x < sorted.len() ==> #[trigger] policy_in(sorted[x], ps)
    &&& forall|x: int| 0 <= x < ps.len() ==> #[trigger] policy_in(ps[x], sorted)
}

/// The first policy in ID order for which `bad` holds has the least such ID.
proof fn lemma_least_in_order(sorted: Seq<PolicySpec>, ps: Seq<PolicySpec>, bad: spec_fn(PolicySpec) -> bool, j: int)
    requires
        same_policies(sorted, ps),
        forall|p1: PolicySpec, p2: PolicySpec| policy_view(p1) == policy_view(p2) ==> bad(p1) == bad(p2),
        0 <= j < sorted.len(), bad(sorted[j]), forall|i: int| #![trigger sorted[i]] 0 <= i < j ==> !bad(sorted[i]),
    ensures least_failing(ps, bad, sorted[j].id@),
{
    assert(policy_in(sorted[j], ps));
    let x = choose|x: int| 0 <= x < ps.len() && policy_view(sorted[j]) == policy_view(#[trigger] ps[x]);
    assert(bad(ps[x]));
    assert(ps[x].id@ == sorted[j].id@);
    let ids = policy_ids(sorted);
    assert forall|z: int| #![trigger ps[z]] 0 <= z < ps.len() && bad(ps[z]) implies !seq_lt(ps[z].id@, sorted[j].id@) by {
        assert(policy_in(ps[z], sorted));
        let y = choose|y: int| 0 <= y < sorted.len() && policy_view(ps[z]) == policy_view(#[trigger] sorted[y]);
        assert(bad(sorted[y]));
        assert(ps[z].id@ == sorted[y].id@);
        if y < j {
            assert(!bad(sorted[y]));
        } else if y == j {
            crate::collections::lemma_seq_lt_irreflexive(sorted[j].id@);
        } else {
            assert(ids[j] == sorted[j].id@ && ids[y] == sorted[y].id@);
            assert(seq_lt(ids[j], ids[y]));
            crate::collections::lemma_seq_lt_asymmetric(ids[j], ids[y]);
        }
    }
}

/// `bad` holds of some listed policy exactly when it holds of some policy in ID order.
proof fn lemma_some_in_order(sorted: Seq<PolicySpec>, ps: Seq<PolicySpec>, bad: spec_fn(PolicySpec) -> bool)
    requires
        same_policies(sorted, ps),
        forall|p1: PolicySpec, p2: PolicySpec| policy_view(p1) == policy_view(p2) ==> bad(p1) == bad(p2),
    ensures
        (exists|x: int| 0 <= x < ps.len() && #[trigger] bad(ps[x])) <==> (exists|y: int| 0 <= y < sorted.len() && #[trigger] bad(sorted[y])),
{
    if exists|x: int| 0 <= x < ps.len() && #[trigger] bad(ps[x]) {
        let x = choose|x: int| 0 <= x < ps.len() && #[trigger] bad(ps[x]);
        assert(policy_in(ps[x], sorted));
        let y = choose|y: int| 0 <= y < sorted.len() && policy_view(ps[x]) == policy_view(#[trigger] sorted[y]);
        assert(bad(sorted[y]));
    }
    if exists|y: int| 0 <= y < sorted.len() && #[trigger] bad(sorted[y]) {
        let y = choose|y: int| 0 <= y < sorted.len() && #[trigger] bad(sorted[y]);
        assert(policy_in(sorted[y], ps));
        let x = choose|x: int| 0 <= x < ps.len() && policy_view(sorted[y]) == policy_view(#[trigger] ps[x]);
        assert(bad(ps[x]));
    }
}

/// Whether `sorted` is the accepted form of `input`: every declaration acceptable, and
/// modules, inputs and policies the same as the input's, by increasing ID.
pub open spec fn project_accepted(input: ProjectSpec, sorted: ProjectSpec) -> bool {
    &&& counts_ok(input)
    &&& forall|i: int| 0 <= i < input.modules@.len() ==> module_ok(#[trigger] input.modules@[i])
    &&& forall|i: int| 0 <= i < input.inputs@.len() ==> #[trigger] owned_ok(input.inputs@[i], module_ids(input.modules@))
    &&& forall|i: int| 0 <= i < input.policies@.len() ==> #[trigger] policy_meta_ok(input.policies@[i], module_ids(input.modules@))
    &&& source_units(input.policies@) <= MAX_PROJECT_SOURCE_UNITS
    &&& increasing(module_ids(sorted.modules@))
    &&& forall|j: int| 0 <= j < sorted.modules@.len() ==> #[trigger] module_in(sorted.modules@[j], input.modules@)
    &&& forall|i: int| 0 <= i < input.modules@.len() ==> #[trigger] module_in(input.modules@[i], sorted.modules@)
    &&& increasing(owned_ids(sorted.inputs@))
    &&& forall|j: int| 0 <= j < sorted.inputs@.len() ==> #[trigger] owned_in(sorted.inputs@[j], input.inputs@)
    &&& forall|i: int| 0 <= i < input.inputs@.len() ==> #[trigger] owned_in(input.inputs@[i], sorted.inputs@)
    &&& increasing(policy_ids(sorted.policies@))
    &&& forall|j: int| 0 <= j < sorted.policies@.len() ==> #[trigger] policy_in(sorted.policies@[j], input.policies@)
    &&& forall|i: int| 0 <= i < input.policies@.len() ==> #[trigger] policy_in(input.policies@[i], sorted.policies@)
}

/// Validates the complete graph before any policy runs: declarations, module imports,
/// input ownership, policy sources, compilation, wiring and dependency order. The
/// caller's spec is copied, sorted by ID.
/// Checks the declarations of a project: counts, modules, imports and their cycles,
/// external inputs, and policies. Gives the indexes of modules, external inputs and
/// policies by ID.
fn check_declarations(input: &ProjectSpec) -> (r: Result<(IdMap<usize>, IdMap<usize>, IdMap<usize>), ProjectError>)
    ensures
        r is Ok <==> declarations_ok(*input),
        r matches Err(e) ==> declaration_refusal(*input, e.code, e.subject_id()) && project_code(e.code),
        r matches Ok((mindex, external, pindex)) ==>
            indexes(mindex, module_ids(input.modules@))
            && indexes(external, owned_ids(input.inputs@)) && external.keys().len() == input.inputs@.len()
            && indexes(pindex, policy_ids(input.policies@))
            && (forall|x: Seq<char>| mindex.keys().contains(x) == module_ids(input.modules@).contains(x))
            && (forall|i: int| 0 <= i < input.modules@.len() ==> module_ok(#[trigger] input.modules@[i]))
            && (forall|i: int| 0 <= i < input.inputs@.len() ==> owned_ok(#[trigger] input.inputs@[i], mindex.keys()))
            && (forall|i: int| 0 <= i < input.policies@.len() ==> policy_meta_ok(#[trigger] input.policies@[i], mindex.keys())
                && utf16_len(input.policies@[i].source@) <= MAX_SOURCE_UNITS)
            && source_units(input.policies@) <= MAX_PROJECT_SOURCE_UNITS,
{
    let ghost ms = input.modules@;
    let ghost os = input.inputs@;
    let ghost ps = input.policies@;
    if input.modules.len() == 0 || input.modules.len() > MAX_MODULES || input.policies.len() == 0
        || input.policies.len() > MAX_POLICIES || input.inputs.len() > MAX_INPUTS {
        return Err(schema_error(None, "Require 1..=64 modules, 1..=128 policies and at most 256 external inputs."));
    }
    let mindex = match check_modules(input.modules.as_slice()) {
        Ok(m) => m,
        Err(e) => { return Err(e); }
    };
    let mgraph = match module_graph(input.modules.as_slice(), &mindex) {
        Ok(g) => g,
        Err(e) => { return Err(e); }
    };
    proof { lemma_module_graph_acyclic(ms, mgraph); }
    if topological(&mgraph).is_none() {
        return Err(ProjectError::new("MODULE_CYCLE", None, String::from_str("Dependency cycle; no execution plan was created.")));
    }
    proof {
        assert forall|x: Seq<char>| mindex.keys().contains(x) == module_ids(ms).contains(x) by {
            assert(mindex.has(x) == module_ids(ms).contains(x));
        }
        lemma_bad_input_keys(os, mindex.keys(), module_ids(ms), 0);
        lemma_bad_policy_keys(ps, mindex.keys(), module_ids(ms), 0, 0);
    }
    let external = match check_inputs(input.inputs.as_slice(), &mindex) {
        Ok(m) => m,
        Err(e) => { return Err(e); }
    };
    let pindex = match check_policies(input.policies.as_slice(), &mindex) {
        Ok(m) => m,
        Err(e) => { return Err(e); }
    };
    Ok((mindex, external, pindex))
}

/// Compiles the policies, by increasing ID, then wires them and orders them by their
/// dependencies.
fn compile_and_wire(input: &ProjectSpec, mindex: &IdMap<usize>, external: &IdMap<usize>, pindex: &IdMap<usize>,
    policies: &Vec<PolicySpec>) -> (r: Result<(IdMap<CompiledExpression>, Graph, Vec<String>), ProjectError>)
    requires
        indexes(*mindex, module_ids(input.modules@)),
        indexes(*external, owned_ids(input.inputs@)),
        indexes(*pindex, policy_ids(input.policies@)),
        forall|i: int| 0 <= i < input.policies@.len() ==> policy_meta_ok(#[trigger] input.policies@[i], mindex.keys()),
        same_policies(policies@, input.policies@),
        policy_ids(policies@) == pindex.keys(),
    ensures
        r is Ok <==> policies_ok(*input),
        r matches Err(e) ==> policies_refusal(*input, e.code, e.subject_id()) && project_code(e.code),
        r matches Ok((compiled, g, order)) ==>
            closed_graph(g)
            && topological_order(g, string_views(order@))
            && least_ready_first(g, string_views(order@))
            && (forall|k: Seq<char>| #[trigger] compiled.has(k) <==> policy_ids(policies@).contains(k))
            && (forall|k: Seq<char>| g.has(k) <==> #[trigger] compiled.has(k))
            && (forall|k: Seq<char>| #[trigger] compiled.has(k) ==> compiled.at(k).wf())
            && (forall|j: int| 0 <= j < policies@.len() ==>
                input_views(compiled.at((#[trigger] policies@[j]).id@).spec_inputs()) == input_views(policies@[j].inputs@))
            && (forall|j: int| 0 <= j < policies@.len() ==>
                compiled.at((#[trigger] policies@[j]).id@).spec_source() == policies@[j].source@)
            && dep_graph_of(g, policies@)
            && forall|j: int| 0 <= j < policies@.len() ==> links_wired(#[trigger] policies@[j], g, external.keys()),
{
    let ghost ms = input.modules@;
    let ghost os = input.inputs@;
    let ghost ps = input.policies@;
    let ghost sorted = policies@;
    proof {
        assert forall|p1: PolicySpec, p2: PolicySpec| policy_view(p1) == policy_view(p2) implies
            (policy_compiles(p1) == policy_compiles(p2) && result_type(p1) == result_type(p2)
            && wiring_problem(os, ps, ms, p1) == wiring_problem(os, ps, ms, p2) && p1.id@ == p2.id@
            && forall|q: Seq<char>| depends_on(p1, q) == depends_on(p2, q)) by {
            lemma_policy_view_stages(os, ps, ms, p1, p2);
        }
        lemma_some_in_order(sorted, ps, |p: PolicySpec| !policy_compiles(p));
    }
    let compiled = match compile_all(policies.as_slice()) {
        Ok(c) => c,
        Err(e) => {
            proof {
                let j = choose|j: int| 0 <= j < sorted.len() && e.subject_id() == Some(sorted[j].id@)
                    && !policy_compiles(sorted[j]) && forall|i: int| 0 <= i < j ==> #[trigger] policy_compiles(sorted[i]);
                lemma_least_in_order(sorted, ps, |p: PolicySpec| !policy_compiles(p), j);
            }
            return Err(e);
        }
    };
    proof {
        assert forall|j: int| 0 <= j < policies@.len() implies mindex.has((#[trigger] policies@[j]).module@) by {
            assert(policy_in(sorted[j], ps));
            let x = choose|x: int| 0 <= x < ps.len() && policy_view(sorted[j]) == policy_view(#[trigger] ps[x]);
            assert(policy_meta_ok(ps[x], mindex.keys()));
        }
        assert forall|k: Seq<char>| #[trigger] pindex.has(k) implies compiled.has(k) by {
            assert(policy_ids(policies@).contains(k));
        }
        assert forall|x: int| 0 <= x < ps.len() implies compiled.at((#[trigger] ps[x]).id@).spec_type() == result_type(ps[x]) by {
            assert(policy_in(ps[x], sorted));
            let y = choose|y: int| 0 <= y < sorted.len() && policy_view(ps[x]) == policy_view(#[trigger] sorted[y]);
            assert(compiled.at(sorted[y].id@).spec_type() == result_type(sorted[y]));
        }
        assert forall|x: int| 0 <= x < ps.len() implies #[trigger] policy_compiles(ps[x]) by {
            assert(policy_in(ps[x], sorted));
            let y = choose|y: int| 0 <= y < sorted.len() && policy_view(ps[x]) == policy_view(#[trigger] sorted[y]);
            assert(policy_compiles(sorted[y]));
        }
        lemma_some_in_order(sorted, ps, |p: PolicySpec| wiring_problem(os, ps, ms, p) is Some);
    }
    let g = match wire(policies.as_slice(), &compiled, external, input.inputs.as_slice(), pindex,
        input.policies.as_slice(), mindex, input.modules.as_slice()) {
        Ok(g) => g,
        Err(e) => {
            proof {
                let j = choose|j: int| 0 <= j < sorted.len() && wiring_problem(os, ps, ms, sorted[j]) == Some(e.code)
                    && e.subject_id() == Some(sorted[j].id@)
                    && forall|i: int| 0 <= i < j ==> #[trigger] wiring_problem(os, ps, ms, sorted[i]) is None;
                lemma_least_in_order(sorted, ps, |p: PolicySpec| wiring_problem(os, ps, ms, p) is Some, j);
                assert(policy_in(sorted[j], ps));
                let x = choose|x: int| 0 <= x < ps.len() && policy_view(sorted[j]) == policy_view(#[trigger] ps[x]);
                assert(ps[x].id@ == sorted[j].id@ && wiring_problem(os, ps, ms, ps[x]) == Some(e.code));
            }
            return Err(e);
        }
    };
    proof {
        assert forall|x: int| 0 <= x < ps.len() implies #[trigger] wiring_problem(os, ps, ms, ps[x]) is None by {
            assert(policy_in(ps[x], sorted));
            let y = choose|y: int| 0 <= y < sorted.len() && policy_view(ps[x]) == policy_view(#[trigger] sorted[y]);
            assert(wiring_problem(os, ps, ms, sorted[y]) is None);
        }
        assert forall|k: Seq<char>| #[trigger] g.has(k) <==> policy_ids(ps).contains(k) by {
            assert(policy_ids(sorted).contains(k) == pindex.has(k));
        }
        assert forall|x: int, q: Seq<char>| 0 <= x < ps.len() implies (#[trigger] g.at(ps[x].id@).has(q) <==> depends_on(ps[x], q)) by {
            assert(policy_in(ps[x], sorted));
            let y = choose|y: int| 0 <= y < sorted.len() && policy_view(ps[x]) == policy_view(#[trigger] sorted[y]);
            assert(g.at(sorted[y].id@).has(q) <==> depends_on(sorted[y], q));
        }
        assert(dep_graph_of(g, ps));
        assert forall|k: Seq<char>| #[trigger] g.has(k) <==> policy_ids(sorted).contains(k) by {
            assert(policy_ids(sorted).contains(k) == pindex.has(k));
        }
        assert forall|y: int, q: Seq<char>| 0 <= y < sorted.len() implies (#[trigger] g.at(sorted[y].id@).has(q) <==> depends_on(sorted[y], q)) by {
            assert(policy_in(sorted[y], ps));
            let x = choose|x: int| 0 <= x < ps.len() && policy_view(sorted[y]) == policy_view(#[trigger] ps[x]);
            assert(g.at(ps[x].id@).has(q) <==> depends_on(ps[x], q));
        }
        assert(dep_graph_of(g, sorted));
        lemma_dep_graph_acyclic(ps, g);
    }
    let order = match topological(&g) {
        Some(o) => o,
        None => {
            return Err(ProjectError::new("POLICY_CYCLE", None, String::from_str("Dependency cycle; no execution plan was created.")));
        }
    };
    proof {
        assert forall|k: Seq<char>| g.has(k) <==> #[trigger] compiled.has(k) by {}
    }
    Ok((compiled, g, order))
}

pub fn compile_project(input: &ProjectSpec) -> (r: Result<Arc<CompiledProject>, ProjectError>)
    ensures
        r is Ok <==> project_valid(*input),
        r matches Err(e) ==> project_refusal(*input, e.code, e.subject_id()),
        !counts_ok(*input) ==> (r matches Err(e) && e.code == "PROJECT_SCHEMA" && e.subject is None),
        r matches Err(e) ==> project_code(e.code),
        r matches Ok(p) ==> project_accepted(*input, p.spec_project()),
        r matches Ok(p) ==> validator_of(p.spec_validator().spec_inputs(), p.spec_project().inputs@),
        r matches Ok(p) ==> topological_order(p.spec_dependencies(), p.spec_order())
            && least_ready_first(p.spec_dependencies(), p.spec_order()),
        r matches Ok(p) ==> dep_graph_of(p.spec_dependencies(), p.spec_project().policies@)
            && forall|k: Seq<char>| #[trigger] p.spec_compiled().has(k) ==>
                compiled_from(p.spec_compiled().at(k), p.spec_policy(k).source@, input_views(p.spec_policy(k).inputs@)),
{
    let (mindex, external, pindex) = match check_declarations(input) {
        Ok(x) => x,
        Err(e) => { return Err(e); }
    };
    let modules = sorted_modules(input.modules.as_slice(), &mindex);
    let inputs = sorted_inputs(input.inputs.as_slice(), &external);
    let policies = sorted_policies(input.policies.as_slice(), &pindex);
    proof {
        assert(same_policies(policies@, input.policies@));
        assert(inputs@.len() == owned_ids(inputs@).len());
        assert forall|t: int| 0 <= t < inputs@.len() implies schema_ok(seq![(#[trigger] inputs@[t]).spec]) by {
            let x = external.values()[t] as int;
            assert(owned_view(inputs@[t]) == owned_view(input.inputs@[x]));
            assert(owned_ok(input.inputs@[x], mindex.keys()));
            assert(input_views(seq![input.inputs@[x].spec]) =~= input_views(seq![inputs@[t].spec]));
            crate::inputs::lemma_schema_views(seq![input.inputs@[x].spec], seq![inputs@[t].spec]);
        }
    }
    let (compiled, g, order) = match compile_and_wire(input, &mindex, &external, &pindex, &policies) {
        Ok(x) => x,
        Err(e) => { return Err(e); }
    };
    let v = match validator(inputs.as_slice()) {
        Ok(v) => v,
        Err(e) => { return Err(e); }
    };
    let ghost pids = policy_ids(policies@);
    proof {
        assert forall|k: Seq<char>| #[trigger] compiled.has(k) implies
            input_views(compiled.at(k).spec_inputs()) == input_views(policies@[pids.index_of(k)].inputs@)
            && compiled_from(compiled.at(k), policies@[pids.index_of(k)].source@, input_views(policies@[pids.index_of(k)].inputs@)) by {
            let j = pids.index_of(k);
            assert(pids.contains(k));
            assert(0 <= j < pids.len() && pids[j] == k);
            assert(policies@[j].id@ == k);
            compiled.at(k).lemma_wf();
        }
        assert(owned_ids(inputs@) == external.keys());
        assert forall|i: int| 0 <= i < input.modules@.len() implies module_ok(#[trigger] input.modules@[i]) by {}
        assert(module_ids(input.modules@) =~= module_ids(input.modules@));
        assert forall|i: int| 0 <= i < input.inputs@.len() implies #[trigger] owned_ok(input.inputs@[i], module_ids(input.modules@)) by {
            assert(owned_ok(input.inputs@[i], mindex.keys()));
            assert(mindex.keys().contains(input.inputs@[i].module@));
            assert(mindex.has(input.inputs@[i].module@));
        }
        assert forall|i: int| 0 <= i < input.policies@.len() implies #[trigger] policy_meta_ok(input.policies@[i], module_ids(input.modules@)) by {
            assert(policy_meta_ok(input.policies@[i], mindex.keys()));
            assert(mindex.keys().contains(input.policies@[i].module@));
            assert(mindex.has(input.policies@[i].module@));
        }
    }
    let project = CompiledProject {
        spec: ProjectSpec { modules, inputs, policies },
        compiled,
        order,
        dependencies: g,
        external_validator: v,
    };
    Ok(Arc::new(project))
}


/// Per-policy budgets and the aggregate budgets of one project run.
#[derive(Clone, Copy, Debug)]
pub struct ProjectLimits {
    pub per_policy: Limits,
    pub max_steps: usize,
    pub max_events: usize,
    /// Cumulative observed text payload, not a total-process memory limit.
    pub max_text_units: usize,
    pub retain_trace: bool,
}

impl Default for ProjectLimits {
    fn default() -> (l: Self)
        ensures
            l.per_policy.max_steps == 10_000, l.per_policy.max_depth == crate::MAX_DEPTH, l.per_policy.max_trace == 10_000,
            l.max_steps == 100_000, l.max_events == 100_000, l.max_text_units == 1_048_576, l.retain_trace,
    {
        ProjectLimits { per_policy: Limits::default(), max_steps: 100_000, max_events: 100_000,
            max_text_units: 1_048_576, retain_trace: true }
    }
}

/// Whether a project run accepts these budgets.
pub open spec fn project_limits_ok(l: ProjectLimits) -> bool {
    &&& limits_ok(l.per_policy)
    &&& 1 <= l.max_steps <= 1_000_000
    &&& 1 <= l.max_events <= 1_000_000
    &&& l.max_text_units <= 16_777_216
}

impl ProjectLimits {
    pub(crate) fn validate(self) -> (r: Result<(), ProjectError>)
        ensures r is Ok <==> project_limits_ok(self), r matches Err(e) ==> e.code == "INVALID_LIMIT",
    {
        let l = self.per_policy;
        if l.max_steps == 0 || l.max_steps > 1_000_000 || l.max_depth == 0 || l.max_depth > crate::MAX_DEPTH
            || l.max_trace == 0 || l.max_trace > 1_000_000 || self.max_steps == 0 || self.max_steps > 1_000_000
            || self.max_events == 0 || self.max_events > 1_000_000 || self.max_text_units > 16_777_216 {
            return Err(ProjectError::new("INVALID_LIMIT", None, String::from_str("Invalid policy or aggregate project budget.")));
        }
        Ok(())
    }
}

/// One policy's execution within a project run: its ID, actual local bindings and outcome.
#[derive(Debug)]
pub struct PolicyRun {
    id: String,
    bindings: InputBindings,
    observed: ObservedOutcome,
}

impl PolicyRun {
    pub closed spec fn spec_id(&self) -> Seq<char> { self.id@ }
    pub closed spec fn spec_bindings(&self) -> InputBindings { self.bindings }
    pub closed spec fn spec_observed(&self) -> ObservedOutcome { self.observed }

    pub fn id(&self) -> (r: &str)
        ensures r@ == self.spec_id(),
    {
        self.id.as_str()
    }

    pub fn bindings(&self) -> (r: &InputBindings)
        ensures *r == self.spec_bindings(),
    {
        &self.bindings
    }

    pub fn observed(&self) -> (r: &ObservedOutcome)
        ensures *r == self.spec_observed(),
    {
        &self.observed
    }
}

/// A receipt of one project execution.
#[derive(Debug)]
pub struct ProjectRun {
    project: Arc<CompiledProject>,
    inputs: InputBindings,
    accepted: bool,
    limits: ProjectLimits,
    nodes: Vec<PolicyRun>,
    result: Result<InputBindings, ProjectError>,
    steps: usize,
    events: usize,
    text_units: usize,
}

impl ProjectRun {
    pub closed spec fn spec_project(&self) -> CompiledProject { *self.project }
    pub closed spec fn spec_inputs(&self) -> InputBindings { self.inputs }
    pub closed spec fn spec_accepted(&self) -> bool { self.accepted }
    pub closed spec fn spec_limits(&self) -> ProjectLimits { self.limits }
    pub closed spec fn spec_nodes(&self) -> Seq<PolicyRun> { self.nodes@ }
    pub closed spec fn spec_result(&self) -> Result<InputBindings, ProjectError> { self.result }
    pub closed spec fn spec_steps(&self) -> nat { self.steps as nat }
    pub closed spec fn spec_events(&self) -> nat { self.events as nat }
    pub closed spec fn spec_text_units(&self) -> nat { self.text_units as nat }

    pub fn project(&self) -> (r: &Arc<CompiledProject>)
        ensures **r == self.spec_project(),
    {
        &self.project
    }

    /// The retained accepted inputs; empty when preflight refused them.
    pub fn inputs(&self) -> (r: &InputBindings)
        ensures *r == self.spec_inputs(),
    {
        &self.inputs
    }

    /// The accepted inputs, or `None` when preflight refused the limits or the inputs.
    pub fn accepted_inputs(&self) -> (r: Option<&InputBindings>)
        ensures
            r is Some <==> self.spec_accepted(),
            r matches Some(b) ==> *b == self.spec_inputs(),
    {
        if self.accepted { Some(&self.inputs) } else { None }
    }

    pub fn limits(&self) -> (r: ProjectLimits)
        ensures r == self.spec_limits(),
    {
        self.limits
    }

    pub fn nodes(&self) -> (r: &[PolicyRun])
        ensures r@ == self.spec_nodes(),
    {
        self.nodes.as_slice()
    }

    pub fn result(&self) -> (r: &Result<InputBindings, ProjectError>)
        ensures *r == self.spec_result(),
    {
        &self.result
    }

    pub fn steps(&self) -> (r: usize)
        ensures r == self.spec_steps(),
    {
        self.steps
    }

    pub fn emitted_events(&self) -> (r: usize)
        ensures r == self.spec_events(),
    {
        self.events
    }

    pub fn observed_text_units(&self) -> (r: usize)
        ensures r == self.spec_text_units(),
    {
        self.text_units
    }

    /// Whether this receipt is for this very compiled project (the same handle, not equal text).
    pub fn is_for(&self, project: &Arc<CompiledProject>) -> (r: bool)
        ensures r ==> self.spec_project() == **project,
    {
        same_allocation(&self.project, project)
    }
}

/// Where the events of a project run go, each with the ID of the policy being run.
pub(crate) trait PolicyObserver {
    spec fn ready(&self) -> bool;

    /// The host code behind the observer, which observing leaves as it is.
    type Host;

    spec fn host(&self) -> Self::Host;

    /// Every event shown to the observer, each with whether it let the run continue.
    spec fn answers(&self) -> Seq<(StepModel, bool)>;

    /// The policy ID handed with each event shown to the observer.
    spec fn labels(&self) -> Seq<Seq<char>>;

    fn observe_policy(&mut self, id: &str, step: &TraceStep) -> (r: ControlFlow<()>)
        requires old(self).ready(),
        ensures
            final(self).ready(), final(self).host() == old(self).host(),
            final(self).answers() == old(self).answers().push((step_view(*step), r is Continue)),
            final(self).labels() == old(self).labels().push(id@);
}

/// A host callback, with each policy ID and event it was handed and what it replied.
pub(crate) struct Hook<F> {
    pub(crate) f: F,
    pub(crate) calls: Ghost<Seq<(Seq<char>, TraceStep, ControlFlow<()>)>>,
}

/// Every reply in `calls` is one that the host callback `f` can give to the policy ID and
/// the event beside the reply.
pub open spec fn policy_answered<F: FnMut(&str, &TraceStep) -> ControlFlow<()>>(f: F,
    calls: Seq<(Seq<char>, TraceStep, ControlFlow<()>)>) -> bool
{
    forall|k: int| 0 <= k < calls.len() ==>
        exists|a: &str| a@ == (#[trigger] calls[k]).0 && call_ensures(f, (a, &calls[k].1), calls[k].2)
}

/// The policy ID handed with each call of a host callback.
pub open spec fn policy_call_ids(calls: Seq<(Seq<char>, TraceStep, ControlFlow<()>)>) -> Seq<Seq<char>> {
    calls.map_values(|c: (Seq<char>, TraceStep, ControlFlow<()>)| c.0)
}

/// What a host callback was handed and replied, as an observer log.
pub open spec fn policy_calls_log(calls: Seq<(Seq<char>, TraceStep, ControlFlow<()>)>) -> Seq<(StepModel, bool)> {
    calls.map_values(|c: (Seq<char>, TraceStep, ControlFlow<()>)| (step_view(c.1), c.2 is Continue))
}

impl<F: FnMut(&str, &TraceStep) -> ControlFlow<()>> PolicyObserver for Hook<F> {
    open spec fn ready(&self) -> bool {
        &&& forall|a: &str, s: &TraceStep| call_requires(self.f, (a, s))
        &&& policy_answered(self.f, self.calls@)
    }

    type Host = F;

    open spec fn host(&self) -> F { self.f }

    open spec fn answers(&self) -> Seq<(StepModel, bool)> { policy_calls_log(self.calls@) }

    open spec fn labels(&self) -> Seq<Seq<char>> { policy_call_ids(self.calls@) }

    fn observe_policy(&mut self, id: &str, step: &TraceStep) -> (r: ControlFlow<()>) {
        let ghost before = self.calls@;
        let r = (self.f)(id, step);
        self.calls = Ghost(before.push((id@, *step, r)));
        proof {
            assert(policy_calls_log(self.calls@) =~= policy_calls_log(before).push((step_view(*step), r is Continue)));
            assert(policy_call_ids(self.calls@) =~= policy_call_ids(before).push(id@));
            assert forall|k: int| 0 <= k < self.calls@.len() implies
                exists|a: &str| a@ == (#[trigger] self.calls@[k]).0 && call_ensures(self.f, (a, &self.calls@[k].1), self.calls@[k].2) by {
                if k < before.len() {
                    assert(before[k] == self.calls@[k]);
                } else {
                    assert(id@ == self.calls@[k].0 && call_ensures(self.f, (id, &self.calls@[k].1), self.calls@[k].2));
                }
            }
        }
        r
    }
}

/// An observer that never stops a run.
pub(crate) struct Ignore {
    pub(crate) answers: Ghost<Seq<(StepModel, bool)>>,
    pub(crate) labels: Ghost<Seq<Seq<char>>>,
}

impl Ignore {
    pub(crate) fn new() -> (s: Ignore)
        ensures s.ready(), s.answers().len() == 0, s.labels().len() == 0,
    {
        Ignore { answers: Ghost(Seq::empty()), labels: Ghost(Seq::empty()) }
    }
}

impl PolicyObserver for Ignore {
    open spec fn ready(&self) -> bool { forall|k: int| 0 <= k < self.answers@.len() ==> (#[trigger] self.answers@[k]).1 }

    type Host = ();

    open spec fn host(&self) -> () { () }

    open spec fn answers(&self) -> Seq<(StepModel, bool)> { self.answers@ }

    open spec fn labels(&self) -> Seq<Seq<char>> { self.labels@ }

    fn observe_policy(&mut self, id: &str, step: &TraceStep) -> (r: ControlFlow<()>)
        ensures r == ControlFlow::<()>::Continue(()),
    {
        self.answers = Ghost(self.answers@.push((step_view(*step), true)));
        self.labels = Ghost(self.labels@.push(id@));
        ControlFlow::Continue(())
    }
}

/// A policy observer labelled with the policy it is observing. The events from position
/// `mark` on were shown with `id`; the IDs before it were `earlier`.
pub(crate) struct Labeled<P> {
    pub(crate) id: String,
    pub(crate) inner: P,
    pub(crate) seen: Ghost<nat>,
    pub(crate) seen_units: Ghost<nat>,
    pub(crate) halted: Ghost<bool>,
    pub(crate) mark: Ghost<nat>,
    pub(crate) earlier: Ghost<Seq<Seq<char>>>,
}

impl<P: PolicyObserver> Observer for Labeled<P> {
    open spec fn ready(&self) -> bool {
        &&& self.inner.ready()
        &&& self.inner.labels().len() == self.inner.answers().len()
        &&& self.mark@ <= self.inner.labels().len()
        &&& self.inner.labels().subrange(0, self.mark@ as int) == self.earlier@
        &&& forall|k: int| self.mark@ <= k < self.inner.labels().len() ==> #[trigger] self.inner.labels()[k] == self.id@
    }

    open spec fn quiet(&self) -> bool { false }

    open spec fn seen(&self) -> nat { self.seen@ }

    open spec fn seen_units(&self) -> nat { self.seen_units@ }

    open spec fn halted(&self) -> bool { self.halted@ }

    open spec fn bounds(&self) -> (nat, nat) { (0, 0) }

    type Host = (P::Host, Seq<char>, nat, Seq<Seq<char>>);

    open spec fn host(&self) -> (P::Host, Seq<char>, nat, Seq<Seq<char>>) {
        (self.inner.host(), self.id@, self.mark@, self.earlier@)
    }

    open spec fn log(&self) -> Seq<(StepModel, bool)> { self.inner.answers() }

    fn observe(&mut self, step: &TraceStep) -> (r: ControlFlow<()>) {
        let ghost before = self.inner.labels();
        let r = self.inner.observe_policy(self.id.as_str(), step);
        proof {
            assert(self.inner.labels().subrange(0, self.mark@ as int) =~= before.subrange(0, self.mark@ as int));
        }
        self.seen = Ghost(self.seen@ + 1);
        self.seen_units = Ghost(self.seen_units@ + step_units(step_view(*step)));
        match r {
            ControlFlow::Break(()) => {
                self.halted = Ghost(true);
                ControlFlow::Break(())
            }
            ControlFlow::Continue(()) => ControlFlow::Continue(()),
        }
    }
}

/// Steps, events and text units used by the first `k` policies of a run.
pub open spec fn used_steps(nodes: Seq<PolicyRun>, k: int) -> int
    decreases k,
{
    if k <= 0 { 0 } else { used_steps(nodes, k - 1) + nodes[k - 1].spec_observed().outcome.steps }
}

pub open spec fn used_events(nodes: Seq<PolicyRun>, k: int) -> int
    decreases k,
{
    if k <= 0 { 0 } else { used_events(nodes, k - 1) + nodes[k - 1].spec_observed().emitted_events }
}

pub open spec fn used_text(nodes: Seq<PolicyRun>, k: int) -> int
    decreases k,
{
    if k <= 0 { 0 } else { used_text(nodes, k - 1) + nodes[k - 1].spec_observed().observed_text_units }
}

/// The budgets of the policy run at position `k`: its own limits, capped by what remains
/// of the aggregate budgets.
pub open spec fn policy_limits(l: ProjectLimits, nodes: Seq<PolicyRun>, k: int) -> Limits {
    Limits {
        max_steps: if l.per_policy.max_steps <= l.max_steps - used_steps(nodes, k) { l.per_policy.max_steps }
            else { (l.max_steps - used_steps(nodes, k)) as usize },
        max_depth: l.per_policy.max_depth,
        max_trace: if l.per_policy.max_trace <= l.max_events - used_events(nodes, k) { l.per_policy.max_trace }
            else { (l.max_events - used_events(nodes, k)) as usize },
    }
}

pub open spec fn policy_options(l: ProjectLimits, nodes: Seq<PolicyRun>, k: int) -> ObservationOptions {
    ObservationOptions { retain_trace: l.retain_trace, max_trace_text_units: (l.max_text_units - used_text(nodes, k)) as usize }
}

/// The value that the policy run for `q` produced.
pub open spec fn node_value(nodes: Seq<PolicyRun>, q: Seq<char>) -> ValueModel {
    let j = choose|j: int| 0 <= j < nodes.len() && nodes[j].spec_id() == q;
    match nodes[j].spec_observed().outcome.result { Ok(v) => v@, Err(_) => ValueModel::Bool(false) }
}

/// The local bindings of a policy: each port bound to the accepted external input or to
/// the result of the earlier policy run it is wired to.
pub open spec fn bindings_for(p: PolicySpec, inputs: InputBindings, nodes: Seq<PolicyRun>, b: InputBindings) -> bool {
    &&& b.keys() == p.links.keys()
    &&& forall|t: int| 0 <= t < b.keys().len() ==> (#[trigger] b.values()[t])@ == match p.links.values()[t] {
        InputSource::External(e) => inputs.at(e@)@,
        InputSource::Policy(q) => node_value(nodes, q@),
    }
}

/// Whether run position `k` executed policy `order[k]` on its wired bindings, within the
/// budgets left by the earlier runs.
pub open spec fn node_ok(p: CompiledProject, inputs: InputBindings, l: ProjectLimits, nodes: Seq<PolicyRun>, k: int) -> bool {
    let id = p.spec_order()[k];
    &&& nodes[k].spec_id() == id
    &&& bindings_for(p.spec_policy(id), inputs, nodes.take(k), nodes[k].spec_bindings())
    &&& observed_ok(p.spec_compiled().at(id), nodes[k].spec_bindings(), policy_limits(l, nodes, k),
        policy_options(l, nodes, k), nodes[k].spec_observed())
}

/// Whether the aggregate step or event budget is spent before position `k` runs.
pub open spec fn spent_before(l: ProjectLimits, nodes: Seq<PolicyRun>, k: int) -> bool {
    used_steps(nodes, k) >= l.max_steps || used_events(nodes, k) >= l.max_events
}

/// How a run with accepted inputs went: no policy ran with the aggregate budget spent, and
/// every policy but the last succeeded; a stop for the budget comes before the next policy
/// in order, after successes only; a policy failure is the last run's, with its diagnostic.
pub open spec fn run_stops_ok(p: CompiledProject, l: ProjectLimits, nodes: Seq<PolicyRun>,
    result: Result<InputBindings, ProjectError>) -> bool
{
    &&& forall|k: int| 0 <= k < nodes.len() ==> !#[trigger] spent_before(l, nodes, k)
    &&& forall|k: int| 0 <= k < nodes.len() - 1 ==> (#[trigger] nodes[k]).spec_observed().outcome.result is Ok
    &&& match result {
        Ok(_) => true,
        Err(e) => {
            &&& e.code == "PROJECT_BUDGET" ==> nodes.len() < p.spec_order().len() && spent_before(l, nodes, nodes.len() as int)
                && e.subject_id() == Some(p.spec_order()[nodes.len() as int])
                && (nodes.len() > 0 ==> nodes.last().spec_observed().outcome.result is Ok)
            &&& e.code == "POLICY_EXECUTION" ==> nodes.len() > 0
                && e.subject_id() == Some(p.spec_order()[nodes.len() - 1])
                && (nodes.last().spec_observed().outcome.result matches Err(d)
                    && (e.diagnostic matches Some(x) && x.code == d.code))
        },
    }
}

/// Codes with which a project run with accepted inputs stops.
pub open spec fn run_code(c: &'static str) -> bool {
    c == "CANCELLED" || c == "PROJECT_BUDGET" || c == "POLICY_EXECUTION"
}

/// What a run of `p` on `inputs` reports: refused limits, then refused inputs, before
/// anything runs; otherwise the policies in execution order, each on its wired bindings,
/// stopping at the first failure, with the aggregate counts of all of them.
pub open spec fn project_run_ok(p: CompiledProject, inputs: InputBindings, l: ProjectLimits, r: ProjectRun) -> bool {
    &&& r.spec_project() == p
    &&& r.spec_limits() == l
    &&& if !project_limits_ok(l) {
        &&& r.spec_result() matches Err(e) && e.code == "INVALID_LIMIT"
        &&& !r.spec_accepted() && r.spec_inputs().keys().len() == 0 && r.spec_nodes().len() == 0
        &&& r.spec_steps() == 0 && r.spec_events() == 0 && r.spec_text_units() == 0
    } else if resolve_problem(p.spec_validator().spec_inputs(), inputs) is Some {
        &&& r.spec_result() matches Err(e) && e.code == "PROJECT_INPUT"
            && (e.diagnostic matches Some(d) && Some(d.code) == resolve_problem(p.spec_validator().spec_inputs(), inputs))
        &&& !r.spec_accepted() && r.spec_inputs().keys().len() == 0 && r.spec_nodes().len() == 0
        &&& r.spec_steps() == 0 && r.spec_events() == 0 && r.spec_text_units() == 0
    } else {
        &&& r.spec_accepted() && bindings_view(r.spec_inputs()) == bindings_view(inputs)
        &&& r.spec_nodes().len() <= p.spec_order().len()
        &&& forall|k: int| 0 <= k < r.spec_nodes().len() ==> #[trigger] node_ok(p, r.spec_inputs(), l, r.spec_nodes(), k)
        &&& r.spec_steps() == used_steps(r.spec_nodes(), r.spec_nodes().len() as int)
        &&& r.spec_events() == used_events(r.spec_nodes(), r.spec_nodes().len() as int)
        &&& r.spec_text_units() == used_text(r.spec_nodes(), r.spec_nodes().len() as int)
        &&& r.spec_steps() <= l.max_steps + 1
        &&& r.spec_events() <= l.max_events && r.spec_text_units() <= l.max_text_units
        &&& match r.spec_result() {
            Ok(values) => r.spec_nodes().len() == p.spec_order().len()
                && (forall|k: Seq<char>| #[trigger] values.has(k) <==> p.spec_order().contains(k))
                && forall|k: int| 0 <= k < r.spec_nodes().len() ==>
                    (#[trigger] r.spec_nodes()[k].spec_observed().outcome.result matches Ok(v)
                        && values.at(p.spec_order()[k])@ == v@),
            Err(e) => run_code(e.code)
                && (e.code == "POLICY_EXECUTION" ==> r.spec_nodes().len() > 0
                    && r.spec_nodes().last().spec_observed().outcome.result is Err),
        }
        &&& run_stops_ok(p, l, r.spec_nodes(), r.spec_result())
    }
}


proof fn lemma_used_push(nodes: Seq<PolicyRun>, x: PolicyRun, k: int)
    requires 0 <= k <= nodes.len(),
    ensures
        used_steps(nodes.push(x), k) == used_steps(nodes, k),
        used_events(nodes.push(x), k) == used_events(nodes, k),
        used_text(nodes.push(x), k) == used_text(nodes, k),
    decreases k,
{
    if k > 0 {
        lemma_used_push(nodes, x, k - 1);
        assert(nodes.push(x)[k - 1] == nodes[k - 1]);
    }
}

proof fn lemma_node_push(p: CompiledProject, inputs: InputBindings, l: ProjectLimits, nodes: Seq<PolicyRun>, x: PolicyRun, j: int)
    requires 0 <= j < nodes.len(), node_ok(p, inputs, l, nodes, j),
    ensures node_ok(p, inputs, l, nodes.push(x), j),
{
    lemma_used_push(nodes, x, j);
    assert(nodes.push(x).take(j) =~= nodes.take(j));
    assert(nodes.push(x)[j] == nodes[j]);
}

fn cancelled(token: Option<&CancellationToken>) -> (r: bool)
    ensures token is None ==> !r,
{
    match token { Some(t) => t.is_cancelled(), None => false }
}

/// The local bindings of `policy`: each port bound to its external input or to the result
/// of the policy it is wired to.
fn bind(policy: &PolicySpec, inputs: &InputBindings, values: &InputBindings, Ghost(ext): Ghost<Seq<Seq<char>>>,
    Ghost(g): Ghost<Graph>) -> (b: InputBindings)
    requires
        links_wired(*policy, g, ext),
        forall|e: Seq<char>| #[trigger] ext.contains(e) ==> inputs.has(e),
        forall|q: Seq<char>| #[trigger] deps(g, policy.id@).has(q) ==> values.has(q),
    ensures
        b.keys() == policy.links.keys(),
        forall|t: int| 0 <= t < b.keys().len() ==> (#[trigger] b.values()[t])@ == match policy.links.values()[t] {
            InputSource::External(e) => inputs.at(e@)@,
            InputSource::Policy(q) => values.at(q@)@,
        },
{
    let entries = policy.links.entries();
    let mut b: InputBindings = IdMap::new();
    let mut t: usize = 0;
    while t < entries.len()
        invariant
            t <= entries@.len(), entries@.len() == policy.links.keys().len(), policy.links.keys().len() == policy.links.values().len(),
            increasing(policy.links.keys()),
            forall|j: int| 0 <= j < entries@.len() ==> (#[trigger] entries@[j]).0@ == policy.links.keys()[j] && entries@[j].1 == policy.links.values()[j],
            links_wired(*policy, g, ext),
            forall|e: Seq<char>| #[trigger] ext.contains(e) ==> inputs.has(e),
            forall|q: Seq<char>| #[trigger] deps(g, policy.id@).has(q) ==> values.has(q),
            forall|k: Seq<char>| #[trigger] b.has(k) <==> policy.links.keys().take(t as int).contains(k),
            forall|j: int| 0 <= j < t ==> (#[trigger] b.at(policy.links.keys()[j]))@ == match policy.links.values()[j] {
                InputSource::External(e) => inputs.at(e@)@,
                InputSource::Policy(q) => values.at(q@)@,
            },
        decreases entries@.len() - t,
    {
        let value: &Value = match &entries[t].1 {
            InputSource::External(e) => match inputs.get(e.as_str()) { Some(v) => v, None => { proof { assert(false); } return b; } },
            InputSource::Policy(q) => match values.get(q.as_str()) { Some(v) => v, None => { proof { assert(false); } return b; } },
        };
        let ghost before = b;
        let ghost keys = policy.links.keys();
        b.insert(entries[t].0.clone(), value.duplicate());
        proof {
            assert(keys.take(t + 1) =~= keys.take(t as int).push(keys[t as int]));
            assert forall|k: Seq<char>| #[trigger] b.has(k) <==> keys.take(t + 1).contains(k) by {
                lemma_contains_push(keys.take(t as int), keys[t as int], k);
            }
            assert forall|j: int| 0 <= j < t + 1 implies (#[trigger] b.at(keys[j]))@ == match policy.links.values()[j] {
                InputSource::External(e) => inputs.at(e@)@,
                InputSource::Policy(q) => values.at(q@)@,
            } by {
                if j < t {
                    crate::collections::lemma_seq_lt_irreflexive(keys[j]);
                    assert(keys[j] != keys[t as int]);
                    assert(keys.take(t as int)[j] == keys[j]);
                    assert(before.has(keys[j]));
                }
            }
        }
        t += 1;
    }
    let _ = b.entries();
    proof {
        let keys = policy.links.keys();
        assert(keys.take(keys.len() as int) =~= keys);
        assert forall|k: Seq<char>| #![trigger b.keys().contains(k)] #![trigger keys.contains(k)] b.keys().contains(k) <==> keys.contains(k) by {
            assert(b.has(k) == b.keys().contains(k));
        }
        crate::collections::lemma_increasing_unique(b.keys(), keys);
        assert forall|j: int| 0 <= j < b.keys().len() implies (#[trigger] b.values()[j])@ == match policy.links.values()[j] {
            InputSource::External(e) => inputs.at(e@)@,
            InputSource::Policy(q) => values.at(q@)@,
        } by {
            b.lemma_at_index(j);
        }
    }
    b
}

/// Runs every policy in execution order, stopping at the first failure.
fn run_policies<P: PolicyObserver>(run: &mut ProjectRun, p: &CompiledProject,
    token: Option<&CancellationToken>, labeled: &mut Labeled<P>) -> (r: Result<InputBindings, ProjectError>)
    requires
        old(labeled).ready(),
        *old(run).project == *p,
        project_limits_ok(old(run).limits),
        resolve_problem(p.spec_validator().spec_inputs(), old(run).inputs) is None,
        old(run).nodes@.len() == 0, old(run).steps == 0, old(run).events == 0, old(run).text_units == 0,
        old(labeled).log().len() == 0,
    ensures
        final(labeled).ready(), final(labeled).inner.host() == old(labeled).inner.host(),
        final(labeled).log().len() == final(run).events,
        shown_labels(final(run).nodes@, final(run).nodes@.len() as int).len() == final(run).events,
        forall|k: int| 0 <= k < final(labeled).log().len() ==> (#[trigger] final(labeled).inner.labels()[k])
            == shown_labels(final(run).nodes@, final(run).nodes@.len() as int)[k],
        shown_events(*p, final(run).limits, final(run).nodes@, final(run).nodes@.len() as int).len() == final(run).events,
        forall|k: int| 0 <= k < final(labeled).log().len() ==> (#[trigger] final(labeled).log()[k]).0
            == shown_events(*p, final(run).limits, final(run).nodes@, final(run).nodes@.len() as int)[k],
        forall|k: int| 0 <= k < final(labeled).log().len() && !(#[trigger] final(labeled).log()[k]).1 ==>
            (k == final(labeled).log().len() - 1 && stopped_in_policy(final(run).nodes@, r)),
        final(run).project == old(run).project, final(run).inputs == old(run).inputs, final(run).limits == old(run).limits,
        final(run).accepted == old(run).accepted,
        final(run).nodes@.len() <= p.spec_order().len(),
        forall|k: int| 0 <= k < final(run).nodes@.len() ==> #[trigger] node_ok(*p, final(run).inputs, final(run).limits, final(run).nodes@, k),
        final(run).steps == used_steps(final(run).nodes@, final(run).nodes@.len() as int),
        final(run).events == used_events(final(run).nodes@, final(run).nodes@.len() as int),
        final(run).text_units == used_text(final(run).nodes@, final(run).nodes@.len() as int),
        final(run).steps <= final(run).limits.max_steps + 1,
        final(run).events <= final(run).limits.max_events, final(run).text_units <= final(run).limits.max_text_units,
        match r {
            Ok(values) => final(run).nodes@.len() == p.spec_order().len()
                && (forall|k: Seq<char>| #[trigger] values.has(k) <==> p.spec_order().contains(k))
                && forall|k: int| 0 <= k < final(run).nodes@.len() ==>
                    (#[trigger] final(run).nodes@[k].spec_observed().outcome.result matches Ok(v)
                        && values.at(p.spec_order()[k])@ == v@),
            Err(e) => run_code(e.code)
                && (e.code == "POLICY_EXECUTION" ==> final(run).nodes@.len() > 0
                    && final(run).nodes@.last().spec_observed().outcome.result is Err),
        },
        run_stops_ok(*p, final(run).limits, final(run).nodes@, r),
        token is None ==> !(r matches Err(e) && e.code == "CANCELLED"),
{
    proof {
        use_type_invariant(p);
        p.lemma_wf();
        crate::inputs::lemma_resolved_has(p.spec_validator().spec_inputs(), run.inputs);
    }
    let order = p.order();
    let ghost ord = p.spec_order();
    let mut values: InputBindings = IdMap::new();
    let mut k: usize = 0;
    while k < order.len()
        invariant
            labeled.ready(), labeled.inner.host() == old(labeled).inner.host(),
            labeled.log().len() == run.events,
            shown_labels(run.nodes@, k as int).len() == run.events,
            forall|j: int| 0 <= j < labeled.log().len() ==> (#[trigger] labeled.inner.labels()[j])
                == shown_labels(run.nodes@, k as int)[j],
            forall|j: int| 0 <= j < labeled.log().len() ==> (#[trigger] labeled.log()[j]).1,
            shown_events(*p, run.limits, run.nodes@, k as int).len() == run.events,
            forall|j: int| 0 <= j < labeled.log().len() ==> (#[trigger] labeled.log()[j]).0
                == shown_events(*p, run.limits, run.nodes@, k as int)[j],
            run.project == old(run).project, *run.project == *p, run.inputs == old(run).inputs,
            run.limits == old(run).limits, run.accepted == old(run).accepted,
            project_limits_ok(run.limits),
            string_views(order@) == ord, ord == p.spec_order(),
            topological_order(p.spec_dependencies(), ord), closed_graph(p.spec_dependencies()),
            forall|q: Seq<char>| p.spec_dependencies().has(q) <==> #[trigger] p.spec_compiled().has(q),
            forall|q: Seq<char>| #[trigger] p.spec_compiled().has(q) <==> policy_ids(p.spec_project().policies@).contains(q),
            forall|i: int| 0 <= i < p.spec_project().policies@.len() ==>
                links_wired(#[trigger] p.spec_project().policies@[i], p.spec_dependencies(), spec_input_ids(p.spec_validator().spec_inputs())),
            forall|j: int| 0 <= j < p.spec_validator().spec_inputs().len() ==> run.inputs.has(#[trigger] p.spec_validator().spec_inputs()[j].id@),
            k <= ord.len(), run.nodes@.len() == k,
            forall|j: int| 0 <= j < k ==> #[trigger] node_ok(*p, run.inputs, run.limits, run.nodes@, j),
            run.steps == used_steps(run.nodes@, k as int),
            run.events == used_events(run.nodes@, k as int),
            run.text_units == used_text(run.nodes@, k as int),
            run.steps <= run.limits.max_steps + 1,
            run.events <= run.limits.max_events, run.text_units <= run.limits.max_text_units,
            forall|q: Seq<char>| #[trigger] values.has(q) <==> ord.take(k as int).contains(q),
            forall|j: int| 0 <= j < k ==>
                (#[trigger] run.nodes@[j].spec_observed().outcome.result matches Ok(v) && values.at(ord[j])@ == v@),
            forall|j: int| 0 <= j < k ==> !#[trigger] spent_before(run.limits, run.nodes@, j),
        decreases ord.len() - k,
    {
        let id = &order[k];
        proof {
            assert(ord[k as int] == id@);
            assert forall|j: int| 0 <= j < run.nodes@.len() - 1 implies (#[trigger] run.nodes@[j]).spec_observed().outcome.result is Ok by {
                assert(run.nodes@[j].spec_observed().outcome.result matches Ok(v) && values.at(ord[j])@ == v@);
            }
            if k > 0 {
                assert(run.nodes@[k - 1].spec_observed().outcome.result matches Ok(v) && values.at(ord[k - 1])@ == v@);
            }
        }
        if cancelled(token) {
            return Err(ProjectError::new("CANCELLED", Some(id.as_str()), String::from_str("Project execution was cancelled; no completed project result.")));
        }
        if run.steps >= run.limits.max_steps || run.events >= run.limits.max_events {
            return Err(ProjectError::new("PROJECT_BUDGET", Some(id.as_str()), String::from_str("Aggregate step/event budget exhausted before this policy.")));
        }
        proof {
            assert(ord[k as int] == id@);
            assert(ord.contains(id@));
            assert(p.spec_dependencies().has(id@));
            assert(p.spec_compiled().has(id@));
            assert(policy_ids(p.spec_project().policies@).contains(id@));
        }
        let policy = match p.policy(id.as_str()) {
            Some(x) => x,
            None => { return Err(ProjectError::new("POLICY_EXECUTION", Some(id.as_str()), String::from_str("Unknown policy."))); }
        };
        let expression = match p.expression(id.as_str()) {
            Some(x) => x,
            None => { return Err(ProjectError::new("POLICY_EXECUTION", Some(id.as_str()), String::from_str("Unknown policy."))); }
        };
        proof {
            let pids = policy_ids(p.spec_project().policies@);
            assert(pids.contains(id@));
            let i = pids.index_of(id@);
            assert(p.spec_project().policies@[i] == p.spec_policy(id@));
            assert(links_wired(p.spec_project().policies@[i], p.spec_dependencies(), spec_input_ids(p.spec_validator().spec_inputs())));
            assert forall|e: Seq<char>| #[trigger] spec_input_ids(p.spec_validator().spec_inputs()).contains(e) implies run.inputs.has(e) by {
                let j = choose|j: int| 0 <= j < spec_input_ids(p.spec_validator().spec_inputs()).len()
                    && spec_input_ids(p.spec_validator().spec_inputs())[j] == e;
                assert(run.inputs.has(p.spec_validator().spec_inputs()[j].id@));
            }
            assert forall|q: Seq<char>| #[trigger] deps(p.spec_dependencies(), policy.id@).has(q) implies values.has(q) by {
                assert(deps(p.spec_dependencies(), ord[k as int]).has(q));
                let j = choose|j: int| 0 <= j < k && ord[j] == q;
                assert(ord.take(k as int)[j] == q);
            }
        }
        let bindings = bind(policy, &run.inputs, &values, Ghost(spec_input_ids(p.spec_validator().spec_inputs())),
            Ghost(p.spec_dependencies()));
        proof {
            assert forall|t: int| 0 <= t < bindings.keys().len() implies (#[trigger] bindings.values()[t])@ == match policy.links.values()[t] {
                InputSource::External(e) => run.inputs.at(e@)@,
                InputSource::Policy(q) => node_value(run.nodes@, q@),
            } by {
                match policy.links.values()[t] {
                    InputSource::Policy(q) => {
                        assert(deps(p.spec_dependencies(), ord[k as int]).has(q@));
                        let j = choose|j: int| 0 <= j < k && ord[j] == q@;
                        let nodes = run.nodes@;
                        assert(node_ok(*p, run.inputs, run.limits, nodes, j));
                        assert(nodes[j].spec_id() == q@);
                        let jj = choose|jj: int| 0 <= jj < nodes.len() && nodes[jj].spec_id() == q@;
                        assert(node_ok(*p, run.inputs, run.limits, nodes, jj));
                        assert(ord[jj] == q@);
                        if jj != j {
                            assert(ord[jj] != ord[j]);
                        }
                        assert(nodes[j].spec_observed().outcome.result matches Ok(v) && values.at(ord[j])@ == v@);
                    }
                    _ => {}
                }
            }
        }
        assert(!spent_before(run.limits, run.nodes@, k as int));
        let per = run.limits.per_policy;
        let steps_left = run.limits.max_steps - run.steps;
        let events_left = run.limits.max_events - run.events;
        let limits = Limits {
            max_steps: if per.max_steps <= steps_left { per.max_steps } else { steps_left },
            max_depth: per.max_depth,
            max_trace: if per.max_trace <= events_left { per.max_trace } else { events_left },
        };
        let options = ObservationOptions { retain_trace: run.limits.retain_trace,
            max_trace_text_units: run.limits.max_text_units - run.text_units };
        labeled.id = id.clone();
        let ghost labels0 = labeled.inner.labels();
        let ghost prev_labels = shown_labels(run.nodes@, k as int);
        labeled.mark = Ghost(labeled.log().len());
        labeled.earlier = Ghost(labels0);
        proof { assert(labels0.subrange(0, labels0.len() as int) =~= labels0); }
        let ghost log0 = labeled.log();
        let ghost prev = shown_events(*p, run.limits, run.nodes@, k as int);
        let observed = evaluate_with(expression, &bindings, limits, options, token, labeled);
        let ghost d = crate::execution::delivered(*expression, resolve_problem(expression.spec_inputs(), bindings),
            program_values(expression.spec_inputs(), bindings), limits, options);
        proof {
            lemma_answers_after(log0, labeled.log(), d, observed, prev);
            lemma_labels_after(labels0, labeled.inner.labels(), id@, prev_labels);
        }
        let ghost old_nodes = run.nodes@;
        run.steps = run.steps + observed.outcome.steps;
        run.events = run.events + observed.emitted_events;
        run.text_units = run.text_units + observed.observed_text_units;
        let value = crate::execution::copy_result(&observed.outcome.result);
        let node = PolicyRun { id: id.clone(), bindings, observed };
        let ghost node_g = node;
        run.nodes.push(node);
        proof {
            lemma_used_push(old_nodes, node_g, k as int);
            assert(run.nodes@.take(k as int) =~= old_nodes);
            assert(used_steps(run.nodes@, k + 1) == used_steps(old_nodes, k as int) + node_g.observed.outcome.steps);
            assert forall|j: int| 0 <= j < k + 1 implies #[trigger] node_ok(*p, run.inputs, run.limits, run.nodes@, j) by {
                if j < k {
                    lemma_node_push(*p, run.inputs, run.limits, old_nodes, node_g, j);
                } else {
                    assert(run.nodes@[j] == node_g);
                    assert(policy_limits(run.limits, run.nodes@, j) == limits);
                    assert(policy_options(run.limits, run.nodes@, j) == options);
                }
            }
            assert forall|j: int| 0 <= j < k implies
                (#[trigger] run.nodes@[j].spec_observed().outcome.result matches Ok(v) && values.at(ord[j])@ == v@) by {
                assert(run.nodes@[j] == old_nodes[j]);
            }
            assert forall|j: int| 0 <= j < k + 1 implies !#[trigger] spent_before(run.limits, run.nodes@, j) by {
                lemma_used_push(old_nodes, node_g, j);
                if j < k {
                    assert(!spent_before(run.limits, old_nodes, j));
                } else {
                    assert(!spent_before(run.limits, old_nodes, k as int));
                }
            }
            assert forall|j: int| 0 <= j < run.nodes@.len() - 1 implies (#[trigger] run.nodes@[j]).spec_observed().outcome.result is Ok by {
                assert(run.nodes@[j] == old_nodes[j]);
                assert(old_nodes[j].spec_observed().outcome.result matches Ok(v) && values.at(ord[j])@ == v@);
            }
            lemma_shown_push(*p, run.limits, old_nodes, node_g, k as int);
            lemma_labels_push(old_nodes, node_g, k as int);
            assert(shown_labels(run.nodes@, k + 1) =~= prev_labels
                + Seq::new(observed.emitted_events as nat, |i: int| id@));
            assert(node_delivered(*p, run.limits, run.nodes@, k as int) == d);
            assert(shown_events(*p, run.limits, run.nodes@, k + 1) == prev + d.subrange(0, observed.emitted_events as int));
        }
        match value {
            Ok(v) => {
                let ghost before = values;
                values.insert(id.clone(), v);
                proof {
                    assert(ord.take(k + 1) =~= ord.take(k as int).push(id@));
                    assert forall|q: Seq<char>| #[trigger] values.has(q) <==> ord.take(k + 1).contains(q) by {
                        lemma_contains_push(ord.take(k as int), id@, q);
                    }
                    assert forall|j: int| 0 <= j < k + 1 implies
                        (#[trigger] run.nodes@[j].spec_observed().outcome.result matches Ok(v) && values.at(ord[j])@ == v@) by {
                        if j < k {
                            assert(ord.take(k as int)[j] == ord[j]);
                            assert(before.has(ord[j]));
                            assert(ord[j] != ord[k as int]);
                        }
                    }
                }
            }
            Err(d) => {
                proof { assert(run.nodes@.last() == node_g); }
                return Err(ProjectError::engine("POLICY_EXECUTION", Some(id.as_str()), d));
            }
        }
        k += 1;
    }
    if cancelled(token) {
        return Err(ProjectError::new("CANCELLED", None, String::from_str("Project execution cancelled before completion.")));
    }
    proof {
        assert(ord.take(ord.len() as int) =~= ord);
    }
    Ok(values)
}


pub(crate) fn execute_with<P: PolicyObserver>(project: &Arc<CompiledProject>, inputs: &InputBindings,
    limits: ProjectLimits, token: Option<&CancellationToken>, observer: P) -> (r: (ProjectRun, P))
    requires observer.ready(), observer.answers().len() == 0, observer.labels().len() == 0,
    ensures
        project_run_ok(**project, *inputs, limits, r.0),
        token is None ==> !(r.0.spec_result() matches Err(e) && e.code == "CANCELLED"),
        r.1.ready(), r.1.host() == observer.host(),
        project_answers_ok(r.1.answers(), r.1.labels(), r.0),
{
    let mut run = ProjectRun { project: share(project), inputs: IdMap::new(), accepted: false, limits, nodes: Vec::new(),
        result: Ok(IdMap::new()), steps: 0, events: 0, text_units: 0 };
    match limits.validate() {
        Ok(()) => {}
        Err(e) => {
            run.result = Err(e);
            return (run, observer);
        }
    }
    let p: &CompiledProject = &**project;
    match resolve(p.external_validator.inputs(), inputs) {
        Ok(_) => {}
        Err(d) => {
            run.result = Err(ProjectError::engine("PROJECT_INPUT", None, d));
            return (run, observer);
        }
    }
    run.inputs = inputs.duplicate();
    run.accepted = true;
    proof {
        assert(run.inputs.keys() == inputs.keys());
        assert forall|j: int| 0 <= j < p.spec_validator().spec_inputs().len() implies
            run.inputs.has(#[trigger] p.spec_validator().spec_inputs()[j].id@) by {
            crate::inputs::lemma_resolved_has(p.spec_validator().spec_inputs(), *inputs);
            assert(inputs.has(p.spec_validator().spec_inputs()[j].id@));
        }
        lemma_resolve_same(p.spec_validator().spec_inputs(), *inputs, run.inputs);
    }
    let mut labeled = Labeled { id: String::new(), inner: observer, seen: Ghost(0), seen_units: Ghost(0), halted: Ghost(false),
        mark: Ghost(0), earlier: Ghost(Seq::empty()) };
    proof { assert(labeled.inner.labels().subrange(0, 0) =~= Seq::<Seq<char>>::empty()); }
    let result = run_policies(&mut run, p, token, &mut labeled);
    run.result = result;
    (run, labeled.inner)
}

/// The run stopped in the last policy it ran, whose evaluation was cancelled.
pub open spec fn stopped_in_policy(nodes: Seq<PolicyRun>, result: Result<InputBindings, ProjectError>) -> bool {
    &&& result matches Err(e) && e.code == "POLICY_EXECUTION"
    &&& nodes.len() > 0 && !not_cancelled(nodes.last().spec_observed().outcome)
}

/// The events policy run `k` of `nodes` delivers when nothing cancels it, under the
/// budgets that the earlier runs left it.
pub open spec fn node_delivered(p: CompiledProject, l: ProjectLimits, nodes: Seq<PolicyRun>, k: int) -> Seq<StepModel> {
    let e = p.spec_compiled().at(nodes[k].spec_id());
    let b = nodes[k].spec_bindings();
    delivered(e, resolve_problem(e.spec_inputs(), b), program_values(e.spec_inputs(), b),
        policy_limits(l, nodes, k), policy_options(l, nodes, k))
}

/// The events the first `k` policy runs of `nodes` emitted, in order: of each, as many of
/// those it delivers as it emitted.
pub open spec fn shown_events(p: CompiledProject, l: ProjectLimits, nodes: Seq<PolicyRun>, k: int) -> Seq<StepModel>
    decreases k,
{
    if k <= 0 {
        Seq::empty()
    } else {
        shown_events(p, l, nodes, k - 1)
            + node_delivered(p, l, nodes, k - 1).subrange(0, nodes[k - 1].spec_observed().emitted_events as int)
    }
}

/// The policy ID handed with each event the first `k` policy runs of `nodes` emitted: the
/// ID of the run that emitted it.
pub open spec fn shown_labels(nodes: Seq<PolicyRun>, k: int) -> Seq<Seq<char>>
    decreases k,
{
    if k <= 0 {
        Seq::empty()
    } else {
        shown_labels(nodes, k - 1) + Seq::new(nodes[k - 1].spec_observed().emitted_events as nat, |i: int| nodes[k - 1].spec_id())
    }
}

proof fn lemma_labels_push(nodes: Seq<PolicyRun>, x: PolicyRun, k: int)
    requires 0 <= k <= nodes.len(),
    ensures shown_labels(nodes.push(x), k) == shown_labels(nodes, k),
    decreases k,
{
    if k > 0 {
        lemma_labels_push(nodes, x, k - 1);
        assert(nodes.push(x)[k - 1] == nodes[k - 1]);
    }
}

/// IDs that kept those before and added `id` after them follow `prev` with `id` repeated.
proof fn lemma_labels_after(before: Seq<Seq<char>>, after: Seq<Seq<char>>, id: Seq<char>, prev: Seq<Seq<char>>)
    requires
        before.len() <= after.len(),
        after.subrange(0, before.len() as int) == before,
        forall|k: int| before.len() <= k < after.len() ==> #[trigger] after[k] == id,
        prev.len() == before.len(),
        forall|j: int| 0 <= j < prev.len() ==> #[trigger] before[j] == prev[j],
    ensures
        forall|j: int| 0 <= j < after.len() ==> #[trigger] after[j]
            == (prev + Seq::new((after.len() - before.len()) as nat, |i: int| id))[j],
{
    assert forall|j: int| 0 <= j < after.len() implies #[trigger] after[j]
        == (prev + Seq::new((after.len() - before.len()) as nat, |i: int| id))[j] by {
        if j < before.len() {
            assert(after.subrange(0, before.len() as int)[j] == after[j]);
        }
    }
}

/// The answers an observer gave over a project run, with the policy IDs handed beside
/// them: one per event the run emitted, each answer to the next of the events that the
/// policy runs emitted, in order, handed with the ID of the policy that emitted it; only the last
/// can have asked the run to stop, and then the run failed in the last policy it ran,
/// whose evaluation was cancelled.
pub open spec fn project_answers_ok(a: Seq<(StepModel, bool)>, ids: Seq<Seq<char>>, r: ProjectRun) -> bool {
    let shown = shown_events(r.spec_project(), r.spec_limits(), r.spec_nodes(), r.spec_nodes().len() as int);
    let labels = shown_labels(r.spec_nodes(), r.spec_nodes().len() as int);
    &&& a.len() == r.spec_events()
    &&& shown.len() == a.len() && ids.len() == a.len() && labels.len() == a.len()
    &&& forall|k: int| 0 <= k < a.len() ==> (#[trigger] a[k]).0 == shown[k]
    &&& forall|k: int| 0 <= k < a.len() ==> #[trigger] ids[k] == labels[k]
    &&& forall|k: int| 0 <= k < a.len() && !(#[trigger] a[k]).1 ==>
        (k == a.len() - 1 && stopped_in_policy(r.spec_nodes(), r.spec_result()))
}

/// The events shown over the first `k` runs stay as they are when another run follows.
proof fn lemma_shown_push(p: CompiledProject, l: ProjectLimits, nodes: Seq<PolicyRun>, x: PolicyRun, k: int)
    requires 0 <= k <= nodes.len(),
    ensures shown_events(p, l, nodes.push(x), k) == shown_events(p, l, nodes, k),
    decreases k,
{
    if k > 0 {
        lemma_shown_push(p, l, nodes, x, k - 1);
        lemma_used_push(nodes, x, k - 1);
        assert(nodes.push(x)[k - 1] == nodes[k - 1]);
        assert(node_delivered(p, l, nodes.push(x), k - 1) == node_delivered(p, l, nodes, k - 1));
    }
}

/// After one policy's evaluation, an observer that had only let the run go on holds one
/// more answer per event, each to the next event that evaluation delivered, and only the
/// last of them can have asked the run to stop, which the evaluation then reports as a
/// cancellation.
proof fn lemma_answers_after(before: Seq<(StepModel, bool)>, after: Seq<(StepModel, bool)>, d: Seq<StepModel>,
    o: ObservedOutcome, prev: Seq<StepModel>)
    requires
        shown_ok(before, after, d, o),
        forall|j: int| 0 <= j < before.len() ==> (#[trigger] before[j]).1,
        prev.len() == before.len(),
        forall|j: int| 0 <= j < before.len() ==> (#[trigger] before[j]).0 == prev[j],
    ensures
        after.len() == before.len() + o.emitted_events,
        o.emitted_events <= d.len(),
        forall|k: int| 0 <= k < after.len() ==> (#[trigger] after[k]).0 == (prev + d.subrange(0, o.emitted_events as int))[k],
        forall|k: int| 0 <= k < after.len() && !(#[trigger] after[k]).1 ==> (k == after.len() - 1 && !not_cancelled(o.outcome)),
{
    let seg = after.subrange(before.len() as int, after.len() as int);
    let all = prev + d.subrange(0, o.emitted_events as int);
    assert forall|k: int| 0 <= k < after.len() implies (#[trigger] after[k]).0 == all[k]
        && (!after[k].1 ==> (k == after.len() - 1 && !not_cancelled(o.outcome))) by {
        if k < before.len() {
            assert(after.subrange(0, before.len() as int)[k] == after[k]);
        } else {
            assert(seg[k - before.len()] == after[k]);
        }
    }
}

/// Refusal of bound values depends only on what they are.
proof fn lemma_resolve_same(inputs: Seq<InputSpec>, a: InputBindings, b: InputBindings)
    requires bindings_view(a) == bindings_view(b), resolve_problem(inputs, a) is None,
    ensures resolve_problem(inputs, b) is None,
{
    assert(a.keys() == b.keys());
    a.lemma_lengths();
    b.lemma_lengths();
    assert forall|k: Seq<char>| a.has(k) implies a.at(k)@ == b.at(k)@ by {
        let i = a.index_of(k);
        assert(0 <= i < a.keys().len());
        assert(b.index_of(k) == i);
        assert(a.values().map_values(|v: Value| v@)[i] == b.values().map_values(|v: Value| v@)[i]);
    }
    lemma_binding_same(inputs, a, b, 0, 0);
}

proof fn lemma_binding_same(inputs: Seq<InputSpec>, a: InputBindings, b: InputBindings, i: int, units: int)
    requires
        a.keys() == b.keys(), forall|k: Seq<char>| a.has(k) ==> a.at(k)@ == b.at(k)@,
    ensures crate::inputs::binding_problem(inputs, a, i, units) == crate::inputs::binding_problem(inputs, b, i, units),
    decreases inputs.len() - i,
{
    if 0 <= i < inputs.len() {
        let s = inputs[i];
        if a.has(s.id@) {
            match a.at(s.id@)@ {
                ValueModel::Text(t) => { lemma_binding_same(inputs, a, b, i + 1, units + t.len()); }
                _ => { lemma_binding_same(inputs, a, b, i + 1, units); }
            }
        }
    }
}

/// Eager dataflow: every declared policy executes once, in execution order, on the values
/// of the external inputs and earlier policies it is wired to. Each event is delivered to
/// `observer` with the ID of the policy being run; the observer may stop the run.
pub fn execute_project_observed<F: FnMut(&str, &TraceStep) -> ControlFlow<()>>(project: &Arc<CompiledProject>,
    inputs: &InputBindings, limits: ProjectLimits, cancellation: &CancellationToken, observer: F) -> (r: ProjectRun)
    requires forall|a: &str, s: &TraceStep| call_requires(observer, (a, s)),
    ensures
        project_run_ok(**project, *inputs, limits, r),
        exists|calls: Seq<(Seq<char>, TraceStep, ControlFlow<()>)>| policy_answered(observer, calls)
            && #[trigger] project_answers_ok(policy_calls_log(calls), policy_call_ids(calls), r),
{
    let hook = Hook { f: observer, calls: Ghost(Seq::empty()) };
    proof { assert(policy_calls_log(hook.calls@).len() == 0 && policy_call_ids(hook.calls@).len() == 0); }
    let (r, hook) = execute_with(project, inputs, limits, Some(cancellation), hook);
    proof {
        assert(policy_answered(observer, hook.calls@));
        assert(project_answers_ok(policy_calls_log(hook.calls@), policy_call_ids(hook.calls@), r));
    }
    r
}

/// As `execute_project_observed`, with no observer and nothing that can cancel the run.
pub fn execute_project(project: &Arc<CompiledProject>, inputs: &InputBindings, limits: ProjectLimits) -> (r: ProjectRun)
    ensures
        project_run_ok(**project, *inputs, limits, r),
        !(r.spec_result() matches Err(e) && e.code == "CANCELLED"),
{
    let (r, _) = execute_with(project, inputs, limits, None, Ignore::new());
    r
}

/// Law: eager dataflow. A successful project run executed every declared policy exactly
/// once, in execution order, each to a value, and reports each policy's value under its ID.
pub proof fn lemma_successful_run_is_complete(p: CompiledProject, inputs: InputBindings, l: ProjectLimits, r: ProjectRun)
    requires project_run_ok(p, inputs, l, r), r.spec_result() is Ok,
    ensures
        r.spec_accepted(),
        r.spec_nodes().len() == p.spec_order().len(),
        forall|k: int| 0 <= k < r.spec_nodes().len() ==> (#[trigger] r.spec_nodes()[k]).spec_id() == p.spec_order()[k]
            && r.spec_nodes()[k].spec_observed().outcome.result is Ok,
        forall|k: Seq<char>| #[trigger] r.spec_result()->Ok_0.has(k) <==> p.spec_order().contains(k),
{
    assert forall|k: int| 0 <= k < r.spec_nodes().len() implies (#[trigger] r.spec_nodes()[k]).spec_id() == p.spec_order()[k]
        && r.spec_nodes()[k].spec_observed().outcome.result is Ok by {
        assert(node_ok(p, r.spec_inputs(), l, r.spec_nodes(), k));
    }
}

} // verus!
