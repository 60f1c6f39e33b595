//! Review scalar policies using fixed, ID-keyed examples. No file writes or assistant calls.
use vstd::prelude::*;
use crate::cancel::CancellationToken;
use crate::collections::{bindings_view, increasing, lemma_sorted_union, sorted_union, string_views, IdSet};
use crate::execution::{evaluate_with, limits_ok, outcome_ok, trace_units, trace_view, step_units, step_view, Limits,
    ObservationOptions, ObservedOutcome, Observer, Outcome, TraceStep, StepModel, program_used, program_stop, program_run,
    lemma_program_used_complete, lemma_stop_text_mono, observed_ok, not_cancelled, default_options, text_stop, Counters};
use crate::inputs::{boundary_span, copy_specs, input_views, resolve_problem, schema_ok, spec_boundary_span,
    spec_valid_id, valid_id, lemma_schema_views, InputBindings, InputSpec};
use crate::execution::program_values;
use crate::syntax::{compile_with_inputs, compile_code, compiled, compiled_from, node_views, same_logic_spec, CompiledExpression, NodeView};
use crate::text::{chars_of, count_utf8_bounded, str_equal, utf8_len};
use crate::{Diagnostic, Refusal, Value, ValueModel, in_domain, model_text_units, MAX_DEPTH, MAX_INPUTS,
    MAX_INPUT_TEXT_UNITS};
use std::ops::ControlFlow;

verus! {

/// Most examples one review suite may hold.
pub const MAX_REVIEW_CASES: usize = 128;

/// One example: stable ID, display name, bound values and the expected result.
#[derive(Clone, Debug)]
pub struct PolicyCase {
    pub id: String,
    pub name: String,
    pub inputs: InputBindings,
    pub expected: Value,
}

/// What an example is.
pub open spec fn case_view(c: PolicyCase) -> (Seq<char>, Seq<char>, (Seq<Seq<char>>, Seq<ValueModel>), ValueModel) {
    (c.id@, c.name@, bindings_view(c.inputs), c.expected@)
}

impl PolicyCase {
    /// An equal copy.
    pub fn duplicate(&self) -> (c: Self)
        ensures case_view(c) == case_view(*self),
    {
        PolicyCase { id: self.id.clone(), name: self.name.clone(), inputs: self.inputs.duplicate(), expected: self.expected.duplicate() }
    }
}

/// One example run against one policy.
#[derive(Clone, Debug)]
pub struct CaseResult {
    pub case: PolicyCase,
    pub outcome: Outcome,
    pub passed: bool,
}

/// Verdict of one suite.
#[derive(Clone, Copy, Debug, PartialEq, Eq, Structural)]
pub enum SuiteStatus { Passed, Failed, NoCases }

/// One reported difference, keyed by stable ID.
#[derive(Clone, Debug, PartialEq, Eq)]
pub struct Change {
    pub id: String,
    pub kind: &'static str,
}

pub open spec fn change_view(c: Change) -> (Seq<char>, &'static str) {
    (c.id@, c.kind)
}

pub open spec fn changes_view(cs: Seq<Change>) -> Seq<(Seq<char>, &'static str)> {
    cs.map_values(|c: Change| change_view(c))
}

/// Per-run budgets and the cumulative budgets of a whole review.
#[derive(Clone, Copy, Debug)]
pub struct ReviewLimits {
    pub execution: Limits,
    pub max_events: usize,
    pub max_text_units: usize,
}

impl Default for ReviewLimits {
    fn default() -> (l: Self)
        ensures
            l.execution.max_steps == 10_000, l.execution.max_depth == MAX_DEPTH, l.execution.max_trace == 10_000,
            l.max_events == 100_000, l.max_text_units == 1_048_576,
    {
        ReviewLimits { execution: Limits::default(), max_events: 100_000, max_text_units: 1_048_576 }
    }
}

/// Whether a review accepts these budgets.
pub open spec fn review_limits_ok(l: ReviewLimits) -> bool {
    &&& limits_ok(l.execution)
    &&& 1 <= l.max_events <= 1_000_000
    &&& l.max_text_units <= 16_777_216
}

/// How each example of a review is run: every event retained, text capped by the review budget.
pub open spec fn review_options(l: ReviewLimits) -> ObservationOptions {
    ObservationOptions { retain_trace: true, max_trace_text_units: l.max_text_units }
}

/// The source and declared inputs of a reviewed policy.
#[derive(Clone, Debug)]
pub struct PolicySnapshot {
    pub source: String,
    pub inputs: Vec<InputSpec>,
}

impl PolicySnapshot {
    fn of(program: &CompiledExpression) -> (s: Self)
        ensures s.source@ == program.spec_source(), input_views(s.inputs@) == input_views(program.spec_inputs()),
    {
        PolicySnapshot { source: program.source().to_owned(), inputs: copy_specs(program.inputs()) }
    }

    /// Compiles the snapshot again.
    pub fn compile(&self) -> (r: Result<CompiledExpression, crate::Diagnostic>)
        ensures
            !schema_ok(self.inputs@) ==> (r matches Err(d) && d.code == "INPUT_SCHEMA"),
            r matches Ok(p) ==> p.spec_source() == self.source@ && input_views(p.spec_inputs()) == input_views(self.inputs@),
            r matches Err(d) ==> compile_code(d.code),
            schema_ok(self.inputs@) ==> (match compiled(self.source@, input_views(self.inputs@)) {
                Ok(_) => r matches Ok(p) && compiled_from(p, self.source@, input_views(self.inputs@)),
                Err(f) => r matches Err(d) && d.reports(f),
            }),
    {
        compile_with_inputs(self.source.as_str(), self.inputs.as_slice())
    }
}

/// A completed review of a candidate policy against a baseline.
#[derive(Clone, Debug)]
pub struct PolicyReview {
    pub baseline: PolicySnapshot,
    pub candidate: PolicySnapshot,
    pub logic_changed: bool,
    pub input_changes: Vec<Change>,
    pub case_changes: Vec<Change>,
    pub baseline_results: Vec<CaseResult>,
    pub candidate_results: Vec<CaseResult>,
    pub historical_results: Vec<CaseResult>,
    pub limits: ReviewLimits,
}

/// The verdict of a suite: no cases, every case passed, or some failed.
pub open spec fn spec_status(results: Seq<CaseResult>) -> SuiteStatus {
    if results.len() == 0 {
        SuiteStatus::NoCases
    } else if forall|i: int| 0 <= i < results.len() ==> (#[trigger] results[i]).passed {
        SuiteStatus::Passed
    } else {
        SuiteStatus::Failed
    }
}

/// Whether all three suites of a review passed.
pub open spec fn review_passed(r: PolicyReview) -> bool {
    &&& spec_status(r.baseline_results@) == SuiteStatus::Passed
    &&& spec_status(r.candidate_results@) == SuiteStatus::Passed
    &&& spec_status(r.historical_results@) == SuiteStatus::Passed
}

/// IDs of the examples, among the first `n` positions, that passed in `before` and fail in `after`.
pub open spec fn regressions_upto(before: Seq<CaseResult>, after: Seq<CaseResult>, n: int) -> Seq<Seq<char>>
    decreases n,
{
    if n <= 0 {
        Seq::empty()
    } else {
        let rest = regressions_upto(before, after, n - 1);
        if before[n - 1].passed && !after[n - 1].passed { rest.push(after[n - 1].case.id@) } else { rest }
    }
}

/// IDs of the examples that passed on the baseline and fail on historical replay, in order.
pub open spec fn spec_regressions(r: PolicyReview) -> Seq<Seq<char>> {
    let n = if r.baseline_results@.len() <= r.historical_results@.len() { r.baseline_results@.len() } else { r.historical_results@.len() };
    regressions_upto(r.baseline_results@, r.historical_results@, n as int)
}

impl PolicyReview {
    /// The verdict of a suite.
    pub fn status(results: &[CaseResult]) -> (s: SuiteStatus)
        ensures s == spec_status(results@),
    {
        if results.len() == 0 {
            return SuiteStatus::NoCases;
        }
        let mut i: usize = 0;
        while i < results.len()
            invariant i <= results@.len(), forall|j: int| 0 <= j < i ==> (#[trigger] results@[j]).passed,
            decreases results@.len() - i,
        {
            if !results[i].passed {
                return SuiteStatus::Failed;
            }
            i += 1;
        }
        SuiteStatus::Passed
    }

    /// Whether every suite passed. Empty suites and failed baselines cannot turn a review
    /// into a passing gate.
    pub fn passed(&self) -> (r: bool)
        ensures r == review_passed(*self),
    {
        Self::status(self.baseline_results.as_slice()) == SuiteStatus::Passed
            && Self::status(self.candidate_results.as_slice()) == SuiteStatus::Passed
            && Self::status(self.historical_results.as_slice()) == SuiteStatus::Passed
    }

    /// IDs of examples that passed on the baseline and fail on historical replay.
    pub fn regressions(&self) -> (r: Vec<&str>)
        ensures r@.map_values(|s: &str| s@) == spec_regressions(*self),
    {
        let n = if self.baseline_results.len() <= self.historical_results.len() { self.baseline_results.len() } else { self.historical_results.len() };
        let mut out: Vec<&str> = Vec::new();
        let mut i: usize = 0;
        while i < n
            invariant
                i <= n, n <= self.baseline_results@.len(), n <= self.historical_results@.len(),
                out@.map_values(|s: &str| s@) == regressions_upto(self.baseline_results@, self.historical_results@, i as int),
            decreases n - i,
        {
            let ghost before = out@;
            if self.baseline_results[i].passed && !self.historical_results[i].passed {
                out.push(self.historical_results[i].case.id.as_str());
                assert(out@.map_values(|s: &str| s@) =~= before.map_values(|s: &str| s@).push(self.historical_results@[i as int].case.id@));
            }
            i += 1;
        }
        out
    }
}

/// Law: a passing review has nonempty suites in which every example passed.
pub proof fn lemma_passing_review_is_complete(r: PolicyReview)
    requires review_passed(r),
    ensures
        r.baseline_results@.len() > 0, r.candidate_results@.len() > 0, r.historical_results@.len() > 0,
        forall|i: int| 0 <= i < r.baseline_results@.len() ==> (#[trigger] r.baseline_results@[i]).passed,
        forall|i: int| 0 <= i < r.historical_results@.len() ==> (#[trigger] r.historical_results@[i]).passed,
{
}

proof fn lemma_regression_member(before: Seq<CaseResult>, after: Seq<CaseResult>, n: int)
    requires 0 <= n <= before.len(), n <= after.len(), regressions_upto(before, after, n).len() > 0,
    ensures exists|i: int| 0 <= i < n && before[i].passed && !(#[trigger] after[i]).passed,
    decreases n,
{
    if !(before[n - 1].passed && !after[n - 1].passed) {
        lemma_regression_member(before, after, n - 1);
    } else {
        assert(after[n - 1].passed == false);
    }
}

/// Law: a review with a regression does not pass.
pub proof fn lemma_regression_fails_review(r: PolicyReview)
    requires spec_regressions(r).len() > 0,
    ensures !review_passed(r),
{
    let n = if r.baseline_results@.len() <= r.historical_results@.len() { r.baseline_results@.len() } else { r.historical_results@.len() };
    lemma_regression_member(r.baseline_results@, r.historical_results@, n as int);
}

/// UTF-16 units of text among the values.
pub open spec fn values_units(vs: Seq<ValueModel>) -> nat
    decreases vs.len(),
{
    if vs.len() == 0 { 0 } else { values_units(vs.drop_last()) + model_text_units(vs.last()) }
}

/// Whether one example's metadata is acceptable: a stable ID, a name of at most 1024
/// bytes, at most 256 bound values with stable IDs, at most 262144 text units in its
/// values and expectation together, and an expectation in the integer domain.
pub open spec fn case_ok(c: PolicyCase) -> bool {
    &&& spec_valid_id(c.id@)
    &&& utf8_len(c.name@) <= 1024
    &&& c.inputs.keys().len() <= MAX_INPUTS
    &&& values_units(bindings_view(c.inputs).1.push(c.expected@)) <= MAX_INPUT_TEXT_UNITS
    &&& forall|k: int| 0 <= k < c.inputs.keys().len() ==> spec_valid_id(#[trigger] c.inputs.keys()[k])
    &&& (c.expected@ matches ValueModel::Int(n) ==> in_domain(n as int))
}

/// Whether a suite's metadata is acceptable: at most 128 acceptable examples with distinct IDs.
pub open spec fn cases_ok(cs: Seq<PolicyCase>) -> bool {
    &&& cs.len() <= MAX_REVIEW_CASES
    &&& forall|i: int| 0 <= i < cs.len() ==> case_ok(#[trigger] cs[i])
    &&& forall|i: int, j: int| 0 <= i < j < cs.len() ==> (#[trigger] cs[i]).id@ != (#[trigger] cs[j]).id@
}

pub(crate) proof fn lemma_values_units_push(vs: Seq<ValueModel>, v: ValueModel)
    ensures values_units(vs.push(v)) == values_units(vs) + model_text_units(v),
{
    assert(vs.push(v).drop_last() =~= vs);
}

/// Checks one example's metadata.
fn case_metadata_ok(case: &PolicyCase) -> (r: bool)
    ensures r == case_ok(*case),
{
    if !valid_id(case.id.as_str()) {
        return false;
    }
    let name = chars_of(case.name.as_str());
    if count_utf8_bounded(name.as_slice(), 1024).is_none() {
        return false;
    }
    if case.inputs.len() > MAX_INPUTS {
        return false;
    }
    let entries = case.inputs.entries();
    let ghost vals = bindings_view(case.inputs).1;
    let mut text: usize = 0;
    let mut i: usize = 0;
    while i < entries.len()
        invariant
            i <= entries@.len(), entries@.len() == case.inputs.keys().len(),
            case.inputs.keys().len() == case.inputs.values().len(),
            vals == case.inputs.values().map_values(|v: Value| v@),
            forall|j: int| 0 <= j < entries@.len() ==> (#[trigger] entries@[j]).0@ == case.inputs.keys()[j] && entries@[j].1 == case.inputs.values()[j],
            text == values_units(vals.take(i as int)),
            text <= MAX_INPUT_TEXT_UNITS,
        decreases entries@.len() - i,
    {
        proof {
            assert(vals.take(i + 1) =~= vals.take(i as int).push(vals[i as int]));
            lemma_values_units_push(vals.take(i as int), vals[i as int]);
        }
        let units = entries[i].1.text_units();
        if units > MAX_INPUT_TEXT_UNITS - text {
            proof {
                assert(vals.push(case.expected@).take(i + 1) =~= vals.take(i + 1));
                lemma_prefix_units(vals.push(case.expected@), i + 1);
            }
            return false;
        }
        text = text + units;
        i += 1;
    }
    assert(vals.take(i as int) =~= vals);
    let units = case.expected.text_units();
    proof { lemma_values_units_push(vals, case.expected@); }
    if units > MAX_INPUT_TEXT_UNITS - text {
        return false;
    }
    let mut k: usize = 0;
    while k < entries.len()
        invariant
            k <= entries@.len(), entries@.len() == case.inputs.keys().len(),
            forall|j: int| 0 <= j < entries@.len() ==> (#[trigger] entries@[j]).0@ == case.inputs.keys()[j],
            forall|j: int| 0 <= j < k ==> spec_valid_id(#[trigger] case.inputs.keys()[j]),
        decreases entries@.len() - k,
    {
        if !valid_id(entries[k].0.as_str()) {
            return false;
        }
        k += 1;
    }
    match &case.expected {
        Value::Int(n) => -crate::MAX_INT <= *n && *n <= crate::MAX_INT,
        _ => true,
    }
}

/// Text units never shrink as a list of values grows.
pub(crate) proof fn lemma_prefix_units(vs: Seq<ValueModel>, n: int)
    requires 0 <= n <= vs.len(),
    ensures values_units(vs.take(n)) <= values_units(vs),
    decreases vs.len() - n,
{
    if n < vs.len() {
        assert(vs.take(n + 1).drop_last() =~= vs.take(n));
        lemma_prefix_units(vs, n + 1);
    } else {
        assert(vs.take(n) =~= vs);
    }
}

/// Validates a suite's metadata before anything runs. Invalid input types and refinements
/// are not metadata errors: they become explicit execution failures.
pub(crate) fn validate_cases(cases: &[PolicyCase]) -> (r: Result<(), Diagnostic>)
    ensures
        r is Ok <==> cases_ok(cases@),
        r matches Err(d) ==> d.code == "CASE_SCHEMA" && d.span == spec_boundary_span(),
{
    if cases.len() > MAX_REVIEW_CASES {
        return Err(Diagnostic::new("CASE_SCHEMA", String::from_str("At most 128 cases are supported."), boundary_span()));
    }
    let mut i: usize = 0;
    while i < cases.len()
        invariant
            i <= cases@.len(), cases@.len() <= MAX_REVIEW_CASES,
            forall|j: int| 0 <= j < i ==> case_ok(#[trigger] cases@[j]),
            forall|a: int, b: int| 0 <= a < b < i ==> (#[trigger] cases@[a]).id@ != (#[trigger] cases@[b]).id@,
        decreases cases@.len() - i,
    {
        let case = &cases[i];
        let mut duplicate = false;
        let mut j: usize = 0;
        while j < i
            invariant
                j <= i, i < cases@.len(), case.id@ == cases@[i as int].id@,
                duplicate ==> exists|a: int| 0 <= a < i && (#[trigger] cases@[a]).id@ == cases@[i as int].id@,
                !duplicate ==> forall|a: int| 0 <= a < j ==> (#[trigger] cases@[a]).id@ != cases@[i as int].id@,
            decreases i - j,
        {
            if !duplicate && str_equal(cases[j].id.as_str(), case.id.as_str()) {
                duplicate = true;
                assert(cases@[j as int].id@ == cases@[i as int].id@);
            }
            j += 1;
        }
        if duplicate || !case_metadata_ok(case) {
            return Err(Diagnostic::new("CASE_SCHEMA", String::from_str("Invalid or duplicate case identity, name, input count, text budget, input ID or expected value."), boundary_span()));
        }
        i += 1;
    }
    Ok(())
}

/// Cumulative event and text budget of a review, shared by all its runs. `seen` and
/// `seen_units` count every event shown to it. It never stops a run: once the events shown
/// would exceed the budget it is `exhausted`, and the review discards the run.
pub(crate) struct Quota {
    pub(crate) events: usize,
    pub(crate) text: usize,
    pub(crate) max_events: usize,
    pub(crate) max_text: usize,
    pub(crate) exhausted: bool,
    pub(crate) seen: Ghost<nat>,
    pub(crate) seen_units: Ghost<nat>,
    pub(crate) log: Ghost<Seq<(StepModel, bool)>>,
}

impl Observer for Quota {
    open spec fn ready(&self) -> bool {
        &&& self.events <= self.max_events && self.text <= self.max_text
        &&& !self.exhausted ==> self.events == self.seen@ && self.text == self.seen_units@
        &&& self.exhausted ==> self.seen@ > self.max_events || self.seen_units@ > self.max_text
    }

    open spec fn quiet(&self) -> bool { true }

    open spec fn seen(&self) -> nat { self.seen@ }

    open spec fn seen_units(&self) -> nat { self.seen_units@ }

    open spec fn halted(&self) -> bool { false }

    open spec fn bounds(&self) -> (nat, nat) { (self.max_events as nat, self.max_text as nat) }

    type Host = ();

    open spec fn host(&self) -> () { () }

    open spec fn log(&self) -> Seq<(StepModel, bool)> { self.log@ }

    fn observe(&mut self, step: &TraceStep) -> (r: ControlFlow<()>) {
        let units: usize = match &step.value { Some(v) => v.text_units(), None => 0 };
        proof {
            assert(units == step_units(step_view(*step)));
        }
        self.seen = Ghost(self.seen@ + 1);
        self.seen_units = Ghost(self.seen_units@ + units as nat);
        self.log = Ghost(self.log@.push((step_view(*step), true)));
        if self.events < self.max_events && units <= self.max_text - self.text {
            self.events = self.events + 1;
            self.text = self.text + units;
        } else {
            self.exhausted = true;
        }
        ControlFlow::Continue(())
    }
}

/// The events that running example `c` against `p` delivers: none when its bindings are
/// refused, otherwise those of the run up to its end or stop.
pub open spec fn case_events(p: CompiledExpression, c: PolicyCase, l: ReviewLimits) -> Seq<StepModel> {
    if resolve_problem(p.spec_inputs(), c.inputs) is Some {
        Seq::empty()
    } else {
        program_used(p, program_values(p.spec_inputs(), c.inputs), l.execution, l.max_text_units as nat).1
    }
}

/// Whether the run of example `c` stops because an event's text exceeds the text budget.
pub open spec fn case_value_limit(p: CompiledExpression, c: PolicyCase, l: ReviewLimits) -> bool {
    &&& resolve_problem(p.spec_inputs(), c.inputs) is None
    &&& program_stop(p, program_values(p.spec_inputs(), c.inputs), l.execution, l.max_text_units as nat)
        matches Some((code, _)) && code@ == "TRACE_VALUE_LIMIT"@
}

/// The cumulative events and text after running example `c`, from `q`, or `None` when the
/// run exceeds the review's cumulative budget or its text budget.
pub open spec fn case_spends(p: CompiledExpression, c: PolicyCase, l: ReviewLimits, q: (nat, nat)) -> Option<(nat, nat)> {
    let t = case_events(p, c, l);
    if q.0 + t.len() > l.max_events || q.1 + trace_units(t) > l.max_text_units || case_value_limit(p, c, l) {
        None
    } else {
        Some(((q.0 + t.len()) as nat, (q.1 + trace_units(t)) as nat))
    }
}

/// The cumulative events and text after running the examples `cs` in order from `q`, or
/// `None` once one of them exceeds the budget.
pub open spec fn suite_quota(p: CompiledExpression, cs: Seq<PolicyCase>, l: ReviewLimits, q: Option<(nat, nat)>)
    -> Option<(nat, nat)>
    decreases cs.len(),
{
    if cs.len() == 0 {
        q
    } else {
        match suite_quota(p, cs.drop_last(), l, q) {
            None => None,
            Some(x) => case_spends(p, cs.last(), l, x),
        }
    }
}

/// The cumulative budget a review uses: the old examples on the baseline, the new ones on
/// the candidate, then the old ones replayed on the candidate; `None` when it is exceeded.
pub open spec fn review_quota(baseline: CompiledExpression, candidate: CompiledExpression, old_cases: Seq<PolicyCase>,
    new_cases: Seq<PolicyCase>, l: ReviewLimits) -> Option<(nat, nat)>
{
    suite_quota(candidate, old_cases, l, suite_quota(candidate, new_cases, l, suite_quota(baseline, old_cases, l, Some((0nat, 0nat)))))
}

/// Once a prefix of the examples exceeds the budget, the whole suite does.
proof fn lemma_suite_quota_prefix(p: CompiledExpression, cs: Seq<PolicyCase>, l: ReviewLimits, q: Option<(nat, nat)>, k: int)
    requires 0 <= k <= cs.len(), suite_quota(p, cs.take(k), l, q) is None,
    ensures suite_quota(p, cs, l, q) is None,
    decreases cs.len(),
{
    if k == cs.len() {
        assert(cs.take(k) =~= cs);
    } else {
        assert(cs.drop_last().take(k) =~= cs.take(k));
        lemma_suite_quota_prefix(p, cs.drop_last(), l, q, k);
    }
}

/// A run of example `c` that was not cancelled delivered exactly the example's events, and
/// stopped on the text budget exactly when the example does.
proof fn lemma_case_run(p: CompiledExpression, c: PolicyCase, l: ReviewLimits, r: ObservedOutcome)
    requires
        review_limits_ok(l),
        observed_ok(p, c.inputs, l.execution, review_options(l), r),
        not_cancelled(r.outcome),
    ensures
        r.emitted_events == case_events(p, c, l).len(),
        r.observed_text_units == trace_units(case_events(p, c, l)),
        (r.outcome.result matches Err(e) && e.code@ == "TRACE_VALUE_LIMIT"@) == case_value_limit(p, c, l),
{
    crate::inputs::lemma_problem_codes(p.spec_inputs(), c.inputs);
    reveal_strlit("TRACE_VALUE_LIMIT");
    reveal_strlit("MISSING_INPUT");
    reveal_strlit("TYPE_ERROR");
    reveal_strlit("INTEGER_RANGE");
    reveal_strlit("REFINEMENT_VIOLATION");
    reveal_strlit("INPUT_LIMIT");
    reveal_strlit("UNKNOWN_INPUT");
    let vals = program_values(p.spec_inputs(), c.inputs);
    if resolve_problem(p.spec_inputs(), c.inputs) is None {
        if r.outcome.result is Ok {
            lemma_program_used_complete(p, vals, l.execution, l.max_text_units as nat);
        }
    } else {
        let code = resolve_problem(p.spec_inputs(), c.inputs).unwrap();
        assert(code@ != "TRACE_VALUE_LIMIT"@) by {
            assert(code@.len() != "TRACE_VALUE_LIMIT"@.len());
        }
        assert(r.outcome.result matches Err(e) && e.code == code);
    }
}

proof fn lemma_suite_quota_none(p: CompiledExpression, cs: Seq<PolicyCase>, l: ReviewLimits)
    ensures suite_quota(p, cs, l, None) is None,
    decreases cs.len(),
{
    if cs.len() > 0 {
        lemma_suite_quota_none(p, cs.drop_last(), l);
    }
}

/// Whether `r` is the run of example `c` against `p` under review budgets `l`: a run that was
/// neither cancelled nor stopped by the text budget, whose outcome is exactly what the
/// example's evaluation gives.
pub open spec fn case_result_ok(p: CompiledExpression, c: PolicyCase, l: ReviewLimits, r: CaseResult) -> bool {
    &&& case_view(r.case) == case_view(c)
    &&& r.passed == (r.outcome.result matches Ok(v) && v@ == c.expected@)
    &&& not_cancelled(r.outcome)
    &&& !(r.outcome.result matches Err(d) && d.code@ == "TRACE_VALUE_LIMIT"@)
    &&& outcome_ok(p, resolve_problem(p.spec_inputs(), c.inputs), program_values(p.spec_inputs(), c.inputs),
        l.execution, review_options(l), r.outcome, r.outcome.trace@.len() as int,
        trace_units(trace_view(r.outcome.trace@)) as int)
}

/// Law: each example a review records has the result that evaluating it on its own gives
/// (`evaluate_bound`): the same success and value, or the same error code at the same span,
/// and so the same verdict.
pub proof fn lemma_review_case_is_evaluation(p: CompiledExpression, c: PolicyCase, l: ReviewLimits, r: CaseResult, o: Outcome)
    requires
        review_limits_ok(l),
        case_result_ok(p, c, l, r),
        outcome_ok(p, resolve_problem(p.spec_inputs(), c.inputs), program_values(p.spec_inputs(), c.inputs),
            l.execution, default_options(), o, o.trace@.len() as int, trace_units(trace_view(o.trace@)) as int),
        not_cancelled(o),
    ensures
        r.outcome.result is Ok <==> o.result is Ok,
        r.outcome.result is Ok ==> r.outcome.result->Ok_0@ == o.result->Ok_0@,
        r.outcome.result matches Err(d) ==> o.result matches Err(e) && d.code == e.code && d.span == e.span,
        r.passed == (o.result matches Ok(v) && v@ == c.expected@),
{
    let vals = program_values(p.spec_inputs(), c.inputs);
    if resolve_problem(p.spec_inputs(), c.inputs) is None {
        let t1 = l.max_text_units as nat;
        let t2 = usize::MAX as nat;
        let zero = Counters { steps: 0, emitted: 0, units: 0 };
        if let Err(d) = r.outcome.result {
            assert(d.code != "TRACE_VALUE_LIMIT");
        }
        assert(!text_stop(program_stop(p, vals, l.execution, t1)));
        lemma_stop_text_mono(p.spec_nodes(), vals, l.execution, t1, t2, p.spec_root(), 1, zero);
        assert(program_stop(p, vals, l.execution, t2) == program_stop(p, vals, l.execution, t1));
    }
}

/// Whether `rs` are the runs of `cs` against `p`, in order.
pub open spec fn suite_ok(p: CompiledExpression, cs: Seq<PolicyCase>, l: ReviewLimits, rs: Seq<CaseResult>) -> bool {
    &&& rs.len() == cs.len()
    &&& forall|i: int| 0 <= i < rs.len() ==> case_result_ok(p, cs[i], l, #[trigger] rs[i])
}

fn cancelled(token: Option<&CancellationToken>) -> (r: bool)
    ensures token is None ==> !r,
{
    match token {
        Some(t) => t.is_cancelled(),
        None => false,
    }
}

fn review_cancelled() -> (d: Diagnostic)
    ensures d.code == "CANCELLED", d.span == spec_boundary_span(),
{
    Diagnostic::new("CANCELLED", String::from_str("Review cancelled; no complete review is available."), boundary_span())
}

/// Runs every example against `program`, sharing the review's cumulative budget.
fn run_suite(quota: &mut Quota, limits: ReviewLimits, program: &CompiledExpression, cases: &[PolicyCase],
    token: Option<&CancellationToken>) -> (r: Result<Vec<CaseResult>, Diagnostic>)
    requires old(quota).ready(), !old(quota).exhausted, review_limits_ok(limits),
        old(quota).max_events == limits.max_events, old(quota).max_text == limits.max_text_units,
    ensures
        final(quota).ready(), r is Ok ==> !final(quota).exhausted,
        final(quota).max_events == limits.max_events, final(quota).max_text == limits.max_text_units,
        token is None ==> (r is Ok <==> suite_quota(*program, cases@, limits,
            Some((old(quota).events as nat, old(quota).text as nat))) is Some),
        token is None && r is Ok ==> suite_quota(*program, cases@, limits,
            Some((old(quota).events as nat, old(quota).text as nat))) == Some((final(quota).events as nat, final(quota).text as nat)),
        r matches Ok(rs) ==> suite_ok(*program, cases@, limits, rs@),
        r matches Err(d) ==> (d.code == "REVIEW_LIMIT" || (d.code == "CANCELLED" && token is Some)) && d.span == spec_boundary_span(),
{
    let mut results: Vec<CaseResult> = Vec::new();
    let options = ObservationOptions { retain_trace: true, max_trace_text_units: limits.max_text_units };
    let ghost q0 = (quota.events as nat, quota.text as nat);
    proof { assert(cases@.take(0) =~= Seq::<PolicyCase>::empty()); }
    let mut i: usize = 0;
    while i < cases.len()
        invariant
            i <= cases@.len(), quota.ready(), !quota.exhausted, review_limits_ok(limits),
            options == review_options(limits),
            suite_ok(*program, cases@.take(i as int), limits, results@),
            quota.max_events == limits.max_events, quota.max_text == limits.max_text_units,
            token is None ==> suite_quota(*program, cases@.take(i as int), limits, Some(q0))
                == Some((quota.events as nat, quota.text as nat)),
            q0 == (old(quota).events as nat, old(quota).text as nat),
        decreases cases@.len() - i,
    {
        if cancelled(token) {
            return Err(review_cancelled());
        }
        let case = &cases[i];
        let ghost qi = (quota.events as nat, quota.text as nat);
        let observed = evaluate_with(program, &case.inputs, limits.execution, options, token, quota);
        let value_limit = match &observed.outcome.result {
            Err(e) => str_equal(e.code, "TRACE_VALUE_LIMIT"),
            Ok(_) => false,
        };
        proof {
            if token is None {
                lemma_case_run(*program, cases@[i as int], limits, observed);
                assert(cases@.take(i + 1).drop_last() =~= cases@.take(i as int));
                assert(cases@.take(i + 1).last() == cases@[i as int]);
                if !quota.exhausted && !value_limit {
                    assert(suite_quota(*program, cases@.take(i + 1), limits, Some(q0))
                        == Some((quota.events as nat, quota.text as nat)));
                }
            }
        }
        if quota.exhausted || value_limit {
            proof {
                if token is None {
                    assert(case_spends(*program, cases@[i as int], limits, qi) is None);
                    assert(suite_quota(*program, cases@.take(i + 1).drop_last(), limits, Some(q0)) == Some(qi));
                    assert(suite_quota(*program, cases@.take(i + 1), limits, Some(q0)) is None);
                    lemma_suite_quota_prefix(*program, cases@, limits, Some(q0), i + 1);
                }
            }
            return Err(Diagnostic::new("REVIEW_LIMIT", String::from_str("Cumulative review trace budget exhausted; no complete review."), boundary_span()));
        }
        let stopped = match (token, &observed.outcome.result) {
            (Some(_), Err(e)) => str_equal(e.code, "CANCELLED"),
            _ => false,
        };
        if stopped || cancelled(token) {
            return Err(review_cancelled());
        }
        let outcome = observed.outcome;
        let passed = match &outcome.result {
            Ok(v) => v.same(&case.expected),
            Err(_) => false,
        };
        let ghost before = results@;
        results.push(CaseResult { case: case.duplicate(), outcome, passed });
        proof {
            assert(cases@.take(i + 1) =~= cases@.take(i as int).push(cases@[i as int]));
            assert forall|j: int| 0 <= j < results@.len() implies
                case_result_ok(*program, cases@.take(i + 1)[j], limits, #[trigger] results@[j]) by {
                if j < i {
                    assert(results@[j] == before[j]);
                    assert(cases@.take(i + 1)[j] == cases@.take(i as int)[j]);
                }
            }
        }
        i += 1;
    }
    assert(cases@.take(cases@.len() as int) =~= cases@);
    Ok(results)
}

/// The IDs of declared inputs, in order.
pub open spec fn input_ids(s: Seq<InputSpec>) -> Seq<Seq<char>> {
    s.map_values(|x: InputSpec| x.id@)
}

/// The declared input with ID `id`, if any.
pub open spec fn find_input(s: Seq<InputSpec>, id: Seq<char>) -> Option<InputSpec> {
    if exists|i: int| 0 <= i < s.len() && (#[trigger] s[i]).id@ == id {
        Some(s[choose|i: int| 0 <= i < s.len() && (#[trigger] s[i]).id@ == id])
    } else {
        None
    }
}

/// Kinds of change of one input ID.
pub open spec fn input_kinds(a: Option<InputSpec>, b: Option<InputSpec>) -> Seq<&'static str> {
    match (a, b) {
        (Some(x), Some(y)) => (if x.name@ != y.name@ { seq!["renamed"] } else { Seq::empty() })
            + (if x.input_type != y.input_type { seq!["type-changed"] } else { Seq::empty() }),
        (None, Some(_)) => seq!["added"],
        (Some(_), None) => seq!["removed"],
        (None, None) => Seq::empty(),
    }
}

/// One ID paired with each of its kinds of change.
pub open spec fn tag(id: Seq<char>, ks: Seq<&'static str>) -> Seq<(Seq<char>, &'static str)> {
    ks.map_values(|k: &'static str| (id, k))
}

pub(crate) proof fn lemma_tag(id: Seq<char>, a: Seq<&'static str>, b: Seq<&'static str>)
    ensures
        tag(id, a + b) == tag(id, a) + tag(id, b),
        tag(id, Seq::empty()) == Seq::<(Seq<char>, &'static str)>::empty(),
{
    assert(tag(id, a + b) =~= tag(id, a) + tag(id, b));
    assert(tag(id, Seq::empty()) =~= Seq::<(Seq<char>, &'static str)>::empty());
}

/// Each ID in order, paired with each of its kinds of change.
pub open spec fn tagged(ids: Seq<Seq<char>>, kinds: spec_fn(Seq<char>) -> Seq<&'static str>) -> Seq<(Seq<char>, &'static str)>
    decreases ids.len(),
{
    if ids.len() == 0 {
        Seq::empty()
    } else {
        tagged(ids.drop_last(), kinds) + tag(ids.last(), kinds(ids.last()))
    }
}

/// Input changes between two schemas, by ID in increasing order: renamed and
/// type-changed inputs, added inputs and removed inputs.
pub open spec fn input_changes_spec(before: Seq<InputSpec>, after: Seq<InputSpec>) -> Seq<(Seq<char>, &'static str)> {
    tagged(sorted_union(input_ids(before), input_ids(after)), input_kinds_of(before, after))
}

/// Kinds of change of each input ID between two schemas.
pub open spec fn input_kinds_of(before: Seq<InputSpec>, after: Seq<InputSpec>) -> spec_fn(Seq<char>) -> Seq<&'static str> {
    |id: Seq<char>| input_kinds(find_input(before, id), find_input(after, id))
}

/// Position of the input with ID `id`.
fn position_input(s: &[InputSpec], id: &str) -> (r: Option<usize>)
    requires forall|i: int, j: int| 0 <= i < j < s@.len() ==> (#[trigger] s@[i]).id@ != (#[trigger] s@[j]).id@,
    ensures
        match r {
            Some(i) => i < s@.len() && s@[i as int].id@ == id@ && find_input(s@, id@) == Some(s@[i as int]),
            None => find_input(s@, id@) is None,
        },
{
    let mut i: usize = 0;
    while i < s.len()
        invariant
            i <= s@.len(), forall|j: int| 0 <= j < i ==> (#[trigger] s@[j]).id@ != id@,
            forall|a: int, b: int| 0 <= a < b < s@.len() ==> (#[trigger] s@[a]).id@ != (#[trigger] s@[b]).id@,
        decreases s@.len() - i,
    {
        if str_equal(s[i].id.as_str(), id) {
            proof {
                let c = choose|c: int| 0 <= c < s@.len() && (#[trigger] s@[c]).id@ == id@;
                if c != i {
                    if c < i { assert(s@[c].id@ != s@[i as int].id@); } else { assert(s@[i as int].id@ != s@[c].id@); }
                }
            }
            return Some(i);
        }
        i += 1;
    }
    None
}

/// The sorted union of the IDs of two lists.
pub(crate) fn union_of(a: &Vec<String>, b: &Vec<String>) -> (r: Vec<String>)
    ensures
        increasing(string_views(r@)),
        forall|k: Seq<char>| #[trigger] string_views(r@).contains(k)
            <==> (string_views(a@).contains(k) || string_views(b@).contains(k)),
{
    let mut set = IdSet::new();
    let mut i: usize = 0;
    while i < a.len()
        invariant
            i <= a@.len(),
            forall|k: Seq<char>| set.has(k) <==> exists|j: int| 0 <= j < i && (#[trigger] a@[j])@ == k,
        decreases a@.len() - i,
    {
        set.insert(a[i].clone());
        i += 1;
    }
    let mut i: usize = 0;
    while i < b.len()
        invariant
            i <= b@.len(),
            forall|k: Seq<char>| set.has(k) <==> (exists|j: int| 0 <= j < a@.len() && (#[trigger] a@[j])@ == k)
                || (exists|j: int| 0 <= j < i && (#[trigger] b@[j])@ == k),
        decreases b@.len() - i,
    {
        set.insert(b[i].clone());
        i += 1;
    }
    let r = set.members_owned();
    proof {
        let rv = string_views(r@);
        assert(rv =~= set.members());
        let av = string_views(a@);
        let bv = string_views(b@);
        assert forall|k: Seq<char>| #[trigger] rv.contains(k) <==> (av.contains(k) || bv.contains(k)) by {
            if av.contains(k) { let j = choose|j: int| 0 <= j < av.len() && av[j] == k; assert(a@[j]@ == k); }
            if bv.contains(k) { let j = choose|j: int| 0 <= j < bv.len() && bv[j] == k; assert(b@[j]@ == k); }
            if set.has(k) {
                if exists|j: int| 0 <= j < a@.len() && (#[trigger] a@[j])@ == k {
                    let j = choose|j: int| 0 <= j < a@.len() && (#[trigger] a@[j])@ == k;
                    assert(av[j] == k);
                } else {
                    let j = choose|j: int| 0 <= j < b@.len() && (#[trigger] b@[j])@ == k;
                    assert(bv[j] == k);
                }
            }
        }
    }
    r
}

fn ids_of_inputs(s: &[InputSpec]) -> (r: Vec<String>)
    ensures string_views(r@) == input_ids(s@),
{
    let mut r: Vec<String> = Vec::new();
    let mut i: usize = 0;
    while i < s.len()
        invariant i <= s@.len(), r@.len() == i, forall|j: int| 0 <= j < i ==> (#[trigger] r@[j])@ == s@[j].id@,
        decreases s@.len() - i,
    {
        r.push(s[i].id.clone());
        i += 1;
    }
    assert(string_views(r@) =~= input_ids(s@));
    r
}

fn push_change(out: &mut Vec<Change>, id: &String, kind: &'static str)
    ensures changes_view(final(out)@) == changes_view(old(out)@).push((id@, kind)),
{
    out.push(Change { id: id.clone(), kind });
    assert(changes_view(final(out)@) =~= changes_view(old(out)@).push((id@, kind)));
}

pub(crate) proof fn lemma_tagged_step(ids: Seq<Seq<char>>, n: int, kinds: spec_fn(Seq<char>) -> Seq<&'static str>)
    requires 0 <= n < ids.len(),
    ensures tagged(ids.take(n + 1), kinds) == tagged(ids.take(n), kinds) + tag(ids[n], kinds(ids[n])),
{
    assert(ids.take(n + 1).drop_last() =~= ids.take(n));
}

/// Input changes between two schemas.
fn input_changes(before: &[InputSpec], after: &[InputSpec]) -> (r: Vec<Change>)
    requires schema_ok(before@), schema_ok(after@),
    ensures changes_view(r@) == input_changes_spec(before@, after@),
{
    let a = ids_of_inputs(before);
    let b = ids_of_inputs(after);
    let ids = union_of(&a, &b);
    let ghost idv = string_views(ids@);
    proof { lemma_sorted_union(input_ids(before@), input_ids(after@), idv); }
    let mut out: Vec<Change> = Vec::new();
    let mut i: usize = 0;
    while i < ids.len()
        invariant
            i <= ids@.len(), idv == string_views(ids@),
            schema_ok(before@), schema_ok(after@),
            changes_view(out@) == tagged(idv.take(i as int), input_kinds_of(before@, after@)),
        decreases ids@.len() - i,
    {
        let id = &ids[i];
        let ghost start = changes_view(out@);
        let x = position_input(before, id.as_str());
        let y = position_input(after, id.as_str());
        match (x, y) {
            (Some(p), Some(q)) => {
                let ghost ka: Seq<&'static str> = if before@[p as int].name@ != after@[q as int].name@ { seq!["renamed"] } else { Seq::empty() };
                let ghost kb: Seq<&'static str> = if before@[p as int].input_type != after@[q as int].input_type { seq!["type-changed"] } else { Seq::empty() };
                if !str_equal(before[p].name.as_str(), after[q].name.as_str()) {
                    push_change(&mut out, id, "renamed");
                    assert(changes_view(out@) =~= start + tag(id@, ka));
                } else {
                    assert(changes_view(out@) =~= start + tag(id@, ka));
                }
                let ghost mid = changes_view(out@);
                if before[p].input_type != after[q].input_type {
                    push_change(&mut out, id, "type-changed");
                    assert(changes_view(out@) =~= mid + tag(id@, kb));
                } else {
                    assert(changes_view(out@) =~= mid + tag(id@, kb));
                }
                proof {
                    lemma_tag(id@, ka, kb);
                    assert(find_input(before@, id@) == Some(before@[p as int]));
                    assert(find_input(after@, id@) == Some(after@[q as int]));
                    assert(input_kinds_of(before@, after@)(id@) == input_kinds(find_input(before@, id@), find_input(after@, id@)));
                    assert(input_kinds_of(before@, after@)(id@) =~= ka + kb);
                }
                assert(changes_view(out@) =~= start + tag(id@, input_kinds_of(before@, after@)(id@)));
            }
            (None, Some(_)) => {
                push_change(&mut out, id, "added");
                assert(changes_view(out@) =~= start + tag(id@, input_kinds_of(before@, after@)(id@)));
            }
            (Some(_), None) => {
                push_change(&mut out, id, "removed");
                assert(changes_view(out@) =~= start + tag(id@, input_kinds_of(before@, after@)(id@)));
            }
            (None, None) => {
                proof { lemma_tag(id@, Seq::empty(), Seq::empty()); }
                assert(changes_view(out@) =~= start + tag(id@, input_kinds_of(before@, after@)(id@)));
            }
        }
        proof {
            lemma_tagged_step(idv, i as int, input_kinds_of(before@, after@));
            assert(idv[i as int] == id@);
            assert(changes_view(out@) == start + tag(id@, input_kinds_of(before@, after@)(id@)));
        }
        i += 1;
    }
    assert(idv.take(ids@.len() as int) =~= idv);
    out
}

/// The IDs of examples, in order.
pub open spec fn case_ids(s: Seq<PolicyCase>) -> Seq<Seq<char>> {
    s.map_values(|x: PolicyCase| x.id@)
}

/// The example with ID `id`, if any.
pub open spec fn find_case(s: Seq<PolicyCase>, id: Seq<char>) -> Option<PolicyCase> {
    if exists|i: int| 0 <= i < s.len() && (#[trigger] s[i]).id@ == id {
        Some(s[choose|i: int| 0 <= i < s.len() && (#[trigger] s[i]).id@ == id])
    } else {
        None
    }
}

/// Kinds of change of one example ID.
pub open spec fn case_kinds(a: Option<PolicyCase>, b: Option<PolicyCase>) -> Seq<&'static str> {
    match (a, b) {
        (Some(x), Some(y)) => (if x.name@ != y.name@ { seq!["renamed"] } else { Seq::empty() })
            + (if bindings_view(x.inputs) != bindings_view(y.inputs) { seq!["input-changed"] } else { Seq::empty() })
            + (if x.expected@ != y.expected@ { seq!["expectation-changed"] } else { Seq::empty() }),
        (None, Some(_)) => seq!["added"],
        (Some(_), None) => seq!["removed"],
        (None, None) => Seq::empty(),
    }
}

/// Example changes between two suites, by ID in increasing order.
pub open spec fn case_changes_spec(before: Seq<PolicyCase>, after: Seq<PolicyCase>) -> Seq<(Seq<char>, &'static str)> {
    tagged(sorted_union(case_ids(before), case_ids(after)), case_kinds_of(before, after))
}

/// Kinds of change of each example ID between two suites.
pub open spec fn case_kinds_of(before: Seq<PolicyCase>, after: Seq<PolicyCase>) -> spec_fn(Seq<char>) -> Seq<&'static str> {
    |id: Seq<char>| case_kinds(find_case(before, id), find_case(after, id))
}

fn position_case(s: &[PolicyCase], id: &str) -> (r: Option<usize>)
    requires forall|i: int, j: int| 0 <= i < j < s@.len() ==> (#[trigger] s@[i]).id@ != (#[trigger] s@[j]).id@,
    ensures
        match r {
            Some(i) => i < s@.len() && s@[i as int].id@ == id@ && find_case(s@, id@) == Some(s@[i as int]),
            None => find_case(s@, id@) is None,
        },
{
    let mut i: usize = 0;
    while i < s.len()
        invariant
            i <= s@.len(), forall|j: int| 0 <= j < i ==> (#[trigger] s@[j]).id@ != id@,
            forall|a: int, b: int| 0 <= a < b < s@.len() ==> (#[trigger] s@[a]).id@ != (#[trigger] s@[b]).id@,
        decreases s@.len() - i,
    {
        if str_equal(s[i].id.as_str(), id) {
            proof {
                let c = choose|c: int| 0 <= c < s@.len() && (#[trigger] s@[c]).id@ == id@;
                if c != i {
                    if c < i { assert(s@[c].id@ != s@[i as int].id@); } else { assert(s@[i as int].id@ != s@[c].id@); }
                }
            }
            return Some(i);
        }
        i += 1;
    }
    None
}

fn ids_of_cases(s: &[PolicyCase]) -> (r: Vec<String>)
    ensures string_views(r@) == case_ids(s@),
{
    let mut r: Vec<String> = Vec::new();
    let mut i: usize = 0;
    while i < s.len()
        invariant i <= s@.len(), r@.len() == i, forall|j: int| 0 <= j < i ==> (#[trigger] r@[j])@ == s@[j].id@,
        decreases s@.len() - i,
    {
        r.push(s[i].id.clone());
        i += 1;
    }
    assert(string_views(r@) =~= case_ids(s@));
    r
}

/// Example changes between two suites.
fn case_changes(before: &[PolicyCase], after: &[PolicyCase]) -> (r: Vec<Change>)
    requires cases_ok(before@), cases_ok(after@),
    ensures changes_view(r@) == case_changes_spec(before@, after@),
{
    let a = ids_of_cases(before);
    let b = ids_of_cases(after);
    let ids = union_of(&a, &b);
    let ghost idv = string_views(ids@);
    proof { lemma_sorted_union(case_ids(before@), case_ids(after@), idv); }
    let mut out: Vec<Change> = Vec::new();
    let mut i: usize = 0;
    while i < ids.len()
        invariant
            i <= ids@.len(), idv == string_views(ids@),
            cases_ok(before@), cases_ok(after@),
            changes_view(out@) == tagged(idv.take(i as int), case_kinds_of(before@, after@)),
        decreases ids@.len() - i,
    {
        let id = &ids[i];
        let ghost start = changes_view(out@);
        let x = position_case(before, id.as_str());
        let y = position_case(after, id.as_str());
        match (x, y) {
            (Some(p), Some(q)) => {
                let ghost ka: Seq<&'static str> = if before@[p as int].name@ != after@[q as int].name@ { seq!["renamed"] } else { Seq::empty() };
                let ghost kb: Seq<&'static str> = if bindings_view(before@[p as int].inputs) != bindings_view(after@[q as int].inputs) { seq!["input-changed"] } else { Seq::empty() };
                let ghost kc: Seq<&'static str> = if before@[p as int].expected@ != after@[q as int].expected@ { seq!["expectation-changed"] } else { Seq::empty() };
                if !str_equal(before[p].name.as_str(), after[q].name.as_str()) {
                    push_change(&mut out, id, "renamed");
                    assert(changes_view(out@) =~= start + tag(id@, ka));
                } else {
                    assert(changes_view(out@) =~= start + tag(id@, ka));
                }
                let ghost mid = changes_view(out@);
                if !before[p].inputs.same(&after[q].inputs) {
                    push_change(&mut out, id, "input-changed");
                    assert(changes_view(out@) =~= mid + tag(id@, kb));
                } else {
                    assert(changes_view(out@) =~= mid + tag(id@, kb));
                }
                let ghost mid2 = changes_view(out@);
                if !before[p].expected.same(&after[q].expected) {
                    push_change(&mut out, id, "expectation-changed");
                    assert(changes_view(out@) =~= mid2 + tag(id@, kc));
                } else {
                    assert(changes_view(out@) =~= mid2 + tag(id@, kc));
                }
                proof {
                    lemma_tag(id@, ka, kb);
                    lemma_tag(id@, ka + kb, kc);
                    assert(find_case(before@, id@) == Some(before@[p as int]));
                    assert(find_case(after@, id@) == Some(after@[q as int]));
                    assert(case_kinds_of(before@, after@)(id@) == case_kinds(find_case(before@, id@), find_case(after@, id@)));
                    assert(case_kinds_of(before@, after@)(id@) =~= ka + kb + kc);
                }
                assert(changes_view(out@) =~= start + tag(id@, case_kinds_of(before@, after@)(id@)));
            }
            (None, Some(_)) => {
                push_change(&mut out, id, "added");
                assert(changes_view(out@) =~= start + tag(id@, case_kinds_of(before@, after@)(id@)));
            }
            (Some(_), None) => {
                push_change(&mut out, id, "removed");
                assert(changes_view(out@) =~= start + tag(id@, case_kinds_of(before@, after@)(id@)));
            }
            (None, None) => {
                proof { lemma_tag(id@, Seq::empty(), Seq::empty()); }
                assert(changes_view(out@) =~= start + tag(id@, case_kinds_of(before@, after@)(id@)));
            }
        }
        proof {
            lemma_tagged_step(idv, i as int, case_kinds_of(before@, after@));
            assert(idv[i as int] == id@);
            assert(changes_view(out@) == start + tag(id@, case_kinds_of(before@, after@)(id@)));
        }
        i += 1;
    }
    assert(idv.take(ids@.len() as int) =~= idv);
    out
}

/// Whether `r` is the complete review of `candidate` against `baseline` with the old and
/// new examples: snapshots of both policies, whether their bound syntax differs, input and
/// example changes, the old examples on the baseline, the new examples on the candidate,
/// and the old examples replayed on the candidate.
pub open spec fn review_ok(baseline: CompiledExpression, candidate: CompiledExpression, old_cases: Seq<PolicyCase>,
    new_cases: Seq<PolicyCase>, limits: ReviewLimits, r: PolicyReview) -> bool
{
    &&& r.baseline.source@ == baseline.spec_source()
    &&& input_views(r.baseline.inputs@) == input_views(baseline.spec_inputs())
    &&& r.candidate.source@ == candidate.spec_source()
    &&& input_views(r.candidate.inputs@) == input_views(candidate.spec_inputs())
    &&& schema_ok(r.baseline.inputs@) && compiled(r.baseline.source@, input_views(r.baseline.inputs@))
        == Ok::<(Seq<NodeView>, nat), Refusal>((node_views(baseline.spec_nodes()), baseline.spec_root() as nat))
    &&& schema_ok(r.candidate.inputs@) && compiled(r.candidate.source@, input_views(r.candidate.inputs@))
        == Ok::<(Seq<NodeView>, nat), Refusal>((node_views(candidate.spec_nodes()), candidate.spec_root() as nat))
    &&& r.logic_changed == !same_logic_spec(baseline, candidate)
    &&& changes_view(r.input_changes@) == input_changes_spec(baseline.spec_inputs(), candidate.spec_inputs())
    &&& changes_view(r.case_changes@) == case_changes_spec(old_cases, new_cases)
    &&& suite_ok(baseline, old_cases, limits, r.baseline_results@)
    &&& suite_ok(candidate, new_cases, limits, r.candidate_results@)
    &&& suite_ok(candidate, old_cases, limits, r.historical_results@)
    &&& r.limits == limits
}

fn review_inner(baseline: &CompiledExpression, candidate: &CompiledExpression, old_cases: &[PolicyCase],
    new_cases: &[PolicyCase], limits: ReviewLimits, token: Option<&CancellationToken>) -> (r: Result<PolicyReview, Diagnostic>)
    ensures
        !cases_ok(old_cases@) || !cases_ok(new_cases@) ==> (r matches Err(d) && d.code == "CASE_SCHEMA"),
        cases_ok(old_cases@) && cases_ok(new_cases@) && !review_limits_ok(limits) ==> (r matches Err(d) && d.code == "INVALID_LIMIT"),
        r matches Err(d) ==> d.span == spec_boundary_span() && (d.code == "CASE_SCHEMA" || d.code == "INVALID_LIMIT"
            || d.code == "REVIEW_LIMIT" || (d.code == "CANCELLED" && token is Some)),
        r matches Err(d) && d.code == "CASE_SCHEMA" ==> !(cases_ok(old_cases@) && cases_ok(new_cases@)),
        r matches Err(d) && d.code != "CASE_SCHEMA" ==> cases_ok(old_cases@) && cases_ok(new_cases@),
        r matches Err(d) && d.code != "CASE_SCHEMA" && d.code != "INVALID_LIMIT" ==> review_limits_ok(limits),
        r matches Ok(rv) ==> cases_ok(old_cases@) && cases_ok(new_cases@) && review_limits_ok(limits)
            && review_ok(*baseline, *candidate, old_cases@, new_cases@, limits, rv),
        token is None && cases_ok(old_cases@) && cases_ok(new_cases@) && review_limits_ok(limits) ==>
            (r is Ok <==> review_quota(*baseline, *candidate, old_cases@, new_cases@, limits) is Some),
{
    validate_cases(old_cases)?;
    validate_cases(new_cases)?;
    let e = limits.execution;
    if e.max_steps == 0 || e.max_steps > 1_000_000 || e.max_depth == 0 || e.max_depth > MAX_DEPTH
        || e.max_trace == 0 || e.max_trace > 1_000_000 || limits.max_events == 0 || limits.max_events > 1_000_000
        || limits.max_text_units > 16_777_216 {
        return Err(Diagnostic::new("INVALID_LIMIT", String::from_str("Invalid review or execution limits."), boundary_span()));
    }
    if cancelled(token) {
        return Err(review_cancelled());
    }
    proof {
        use_type_invariant(baseline);
        use_type_invariant(candidate);
        baseline.lemma_wf();
        candidate.lemma_wf();
    }
    let input_changes = input_changes(baseline.inputs(), candidate.inputs());
    let case_changes = case_changes(old_cases, new_cases);
    let mut quota = Quota { events: 0, text: 0, max_events: limits.max_events, max_text: limits.max_text_units, exhausted: false,
        seen: Ghost(0), seen_units: Ghost(0), log: Ghost(Seq::empty()) };
    let ghost q1 = suite_quota(*baseline, old_cases@, limits, Some((0nat, 0nat)));
    let ghost q2 = suite_quota(*candidate, new_cases@, limits, q1);
    proof {
        lemma_suite_quota_none(*candidate, new_cases@, limits);
        lemma_suite_quota_none(*candidate, old_cases@, limits);
    }
    let baseline_results = match run_suite(&mut quota, limits, baseline, old_cases, token) {
        Ok(rs) => rs,
        Err(d) => { return Err(d); }
    };
    let candidate_results = match run_suite(&mut quota, limits, candidate, new_cases, token) {
        Ok(rs) => rs,
        Err(d) => { return Err(d); }
    };
    // Historical inputs and expectations always come from the old suite, never the candidate's.
    let historical_results = match run_suite(&mut quota, limits, candidate, old_cases, token) {
        Ok(rs) => rs,
        Err(d) => { return Err(d); }
    };
    if cancelled(token) {
        return Err(review_cancelled());
    }
    let baseline_snapshot = PolicySnapshot::of(baseline);
    let candidate_snapshot = PolicySnapshot::of(candidate);
    proof {
        lemma_schema_views(baseline.spec_inputs(), baseline_snapshot.inputs@);
        lemma_schema_views(candidate.spec_inputs(), candidate_snapshot.inputs@);
    }
    Ok(PolicyReview {
        baseline: baseline_snapshot,
        candidate: candidate_snapshot,
        logic_changed: !baseline.same_logic(candidate),
        input_changes,
        case_changes,
        baseline_results,
        candidate_results,
        historical_results,
        limits,
    })
}

/// Reviews `candidate` against `baseline`: validates both suites and the budgets, then
/// runs the old examples on the baseline, the new ones on the candidate, and replays the
/// old ones on the candidate, under one cumulative budget. A valid review completes exactly
/// when `review_quota` says the budget suffices; otherwise it reports `REVIEW_LIMIT`.
pub fn review_policies(baseline: &CompiledExpression, candidate: &CompiledExpression, old_cases: &[PolicyCase],
    new_cases: &[PolicyCase], limits: ReviewLimits) -> (r: Result<PolicyReview, Diagnostic>)
    ensures
        !cases_ok(old_cases@) || !cases_ok(new_cases@) ==> (r matches Err(d) && d.code == "CASE_SCHEMA"),
        cases_ok(old_cases@) && cases_ok(new_cases@) && !review_limits_ok(limits) ==> (r matches Err(d) && d.code == "INVALID_LIMIT"),
        r matches Err(d) ==> d.span == spec_boundary_span()
            && (d.code == "CASE_SCHEMA" || d.code == "INVALID_LIMIT" || d.code == "REVIEW_LIMIT"),
        r matches Err(d) && d.code == "CASE_SCHEMA" ==> !(cases_ok(old_cases@) && cases_ok(new_cases@)),
        r matches Err(d) && d.code != "CASE_SCHEMA" ==> cases_ok(old_cases@) && cases_ok(new_cases@),
        r matches Err(d) && d.code != "CASE_SCHEMA" && d.code != "INVALID_LIMIT" ==> review_limits_ok(limits),
        r matches Ok(rv) ==> cases_ok(old_cases@) && cases_ok(new_cases@) && review_limits_ok(limits)
            && review_ok(*baseline, *candidate, old_cases@, new_cases@, limits, rv),
        cases_ok(old_cases@) && cases_ok(new_cases@) && review_limits_ok(limits) ==>
            (r is Ok <==> review_quota(*baseline, *candidate, old_cases@, new_cases@, limits) is Some),
{
    review_inner(baseline, candidate, old_cases, new_cases, limits, None)
}

/// As `review_policies`, checking a shared token before work, between examples, during
/// evaluation and after completion; cancellation returns `CANCELLED`, not a review.
pub fn review_policies_cancellable(baseline: &CompiledExpression, candidate: &CompiledExpression, old_cases: &[PolicyCase],
    new_cases: &[PolicyCase], limits: ReviewLimits, cancellation: &CancellationToken) -> (r: Result<PolicyReview, Diagnostic>)
    ensures
        !cases_ok(old_cases@) || !cases_ok(new_cases@) ==> (r matches Err(d) && d.code == "CASE_SCHEMA"),
        cases_ok(old_cases@) && cases_ok(new_cases@) && !review_limits_ok(limits) ==> (r matches Err(d) && d.code == "INVALID_LIMIT"),
        r matches Err(d) ==> d.span == spec_boundary_span() && (d.code == "CASE_SCHEMA" || d.code == "INVALID_LIMIT"
            || d.code == "REVIEW_LIMIT" || d.code == "CANCELLED"),
        r matches Err(d) && d.code == "CASE_SCHEMA" ==> !(cases_ok(old_cases@) && cases_ok(new_cases@)),
        r matches Err(d) && d.code != "CASE_SCHEMA" ==> cases_ok(old_cases@) && cases_ok(new_cases@),
        r matches Err(d) && d.code != "CASE_SCHEMA" && d.code != "INVALID_LIMIT" ==> review_limits_ok(limits),
        r matches Ok(rv) ==> cases_ok(old_cases@) && cases_ok(new_cases@) && review_limits_ok(limits)
            && review_ok(*baseline, *candidate, old_cases@, new_cases@, limits, rv),
{
    review_inner(baseline, candidate, old_cases, new_cases, limits, Some(cancellation))
}

} // verus!
