//! Reports include input schemas and values; these are not approval certificates.
use vstd::prelude::*;
use crate::collections::bindings_view;
use crate::execution::{Limits, Outcome};
use crate::inputs::{InputBindings, InputReference, InputSpec};
use crate::policy_review::{spec_regressions, spec_status, review_passed, CaseResult, Change, PolicyReview,
    PolicySnapshot, SuiteStatus};
use crate::report::{bool_text, decimal, quote_spec, render_spec, span_json_spec, value_json_spec,
    write_decimal, write_quote, write_render, write_span, write_value, ENGINE_VERSION};
use crate::syntax::{input_refs, reference_view, CompiledExpression};
use crate::text::{push_str, utf16_units};
use crate::{Span, ValueModel};

verus! {

/// Pieces joined by commas.
pub open spec fn join(parts: Seq<Seq<char>>) -> Seq<char>
    decreases parts.len(),
{
    if parts.len() == 0 {
        Seq::empty()
    } else if parts.len() == 1 {
        parts[0]
    } else {
        join(parts.drop_last()) + ","@ + parts.last()
    }
}

proof fn lemma_join_step(parts: Seq<Seq<char>>, i: int)
    requires 0 <= i < parts.len(),
    ensures join(parts.take(i + 1)) == join(parts.take(i)) + (if i > 0 { ","@ } else { Seq::empty() }) + parts[i],
{
    assert(parts.take(i + 1).drop_last() =~= parts.take(i));
    if i == 0 {
        assert(parts.take(1) =~= seq![parts[0]]);
        assert(join(parts.take(1)) == parts[0]);
        assert(join(parts.take(0)) + Seq::<char>::empty() + parts[0] =~= parts[0]);
    }
}

pub open spec fn q(s: Seq<char>) -> Seq<char> {
    quote_spec(utf16_units(s))
}

pub open spec fn input_json(s: InputSpec) -> Seq<char> {
    "{\"id\":"@ + q(s.id@) + ",\"name\":"@ + q(s.name@) + ",\"type\":"@ + q(s.input_type.spec_name()) + "}"@
}

/// The JSON array of a schema: ID, name and type of each input.
#[verifier::opaque]
pub open spec fn inputs_json_spec(inputs: Seq<InputSpec>) -> Seq<char> {
    "["@ + join(inputs.map_values(|s: InputSpec| input_json(s))) + "]"@
}

pub open spec fn binding_json(k: Seq<char>, v: ValueModel) -> Seq<char> {
    q(k) + ":"@ + value_json_spec(v)
}

pub open spec fn binding_parts(keys: Seq<Seq<char>>, vals: Seq<ValueModel>) -> Seq<Seq<char>> {
    Seq::new(keys.len(), |i: int| binding_json(keys[i], vals[i]))
}

/// The JSON object of bound values, by ID in increasing order.
#[verifier::opaque]
pub open spec fn bindings_json_spec(b: InputBindings) -> Seq<char> {
    "{"@ + join(binding_parts(bindings_view(b).0, bindings_view(b).1)) + "}"@
}

pub open spec fn ref_json(r: (Seq<char>, Seq<char>, Span)) -> Seq<char> {
    "{\"id\":"@ + q(r.0) + ",\"name\":"@ + q(r.1) + ",\"span\":"@ + span_json_spec(r.2) + "}"@
}

/// The input references of a compiled policy, none when compilation failed.
pub open spec fn refs_of(compiled: Option<&CompiledExpression>) -> Seq<(Seq<char>, Seq<char>, Span)> {
    match compiled { Some(p) => input_refs(p.spec_nodes(), p.spec_inputs()), None => Seq::empty() }
}

/// The bound-execution document: schema, bound values, input references and the run.
pub open spec fn bound_render_spec(source: Seq<char>, inputs: Seq<InputSpec>, bindings: InputBindings,
    refs: Seq<(Seq<char>, Seq<char>, Span)>, limits: Limits, phase: Seq<char>, o: Outcome) -> Seq<char>
{
    "{\"schema\":\"cannon.native.bound-expression/1\",\"inputs\":"@ + inputs_json_spec(inputs)
        + ",\"bindings\":"@ + bindings_json_spec(bindings)
        + ",\"inputReferences\":["@ + join(refs.map_values(|r: (Seq<char>, Seq<char>, Span)| ref_json(r)))
        + "],\"execution\":"@ + render_spec(source, "argument.policy"@, limits, phase, o) + "}"@
}

fn write_input(out: &mut String, s: &InputSpec)
    ensures final(out)@ == old(out)@ + input_json(*s),
{
    push_str(out, "{\"id\":");
    write_quote(out, s.id.as_str());
    push_str(out, ",\"name\":");
    write_quote(out, s.name.as_str());
    push_str(out, ",\"type\":");
    write_quote(out, s.input_type.name());
    push_str(out, "}");
    assert(final(out)@ =~= old(out)@ + input_json(*s));
}

fn write_comma(out: &mut String, i: usize)
    ensures final(out)@ == old(out)@ + (if i > 0 { ","@ } else { Seq::empty() }),
{
    if i > 0 {
        push_str(out, ",");
    } else {
        assert(out@ =~= old(out)@ + Seq::<char>::empty());
    }
}

fn write_inputs(out: &mut String, inputs: &[InputSpec])
    ensures final(out)@ == old(out)@ + inputs_json_spec(inputs@),
{
    let ghost parts = inputs@.map_values(|s: InputSpec| input_json(s));
    push_str(out, "[");
    let ghost o1 = out@;
    let mut i: usize = 0;
    while i < inputs.len()
        invariant
            i <= inputs@.len(), parts == inputs@.map_values(|s: InputSpec| input_json(s)),
            out@ == o1 + join(parts.take(i as int)),
        decreases inputs@.len() - i,
    {
        proof { lemma_join_step(parts, i as int); }
        write_comma(out, i);
        write_input(out, &inputs[i]);
        assert(out@ =~= o1 + join(parts.take(i + 1)));
        i += 1;
    }
    assert(parts.take(inputs@.len() as int) =~= parts);
    push_str(out, "]");
    reveal(inputs_json_spec);
    assert(final(out)@ =~= old(out)@ + inputs_json_spec(inputs@));
}

fn write_bindings(out: &mut String, bindings: &InputBindings)
    ensures final(out)@ == old(out)@ + bindings_json_spec(*bindings),
{
    let entries = bindings.entries();
    let ghost parts = binding_parts(bindings_view(*bindings).0, bindings_view(*bindings).1);
    push_str(out, "{");
    let ghost o1 = out@;
    let mut i: usize = 0;
    while i < entries.len()
        invariant
            i <= entries@.len(), entries@.len() == bindings.keys().len(),
            bindings.keys().len() == bindings.values().len(),
            forall|j: int| 0 <= j < entries@.len() ==> (#[trigger] entries@[j]).0@ == bindings.keys()[j] && entries@[j].1 == bindings.values()[j],
            parts == binding_parts(bindings_view(*bindings).0, bindings_view(*bindings).1),
            out@ == o1 + join(parts.take(i as int)),
        decreases entries@.len() - i,
    {
        proof { lemma_join_step(parts, i as int); }
        write_comma(out, i);
        let ghost mid = out@;
        write_quote(out, entries[i].0.as_str());
        push_str(out, ":");
        write_value(out, &entries[i].1);
        assert(out@ =~= mid + parts[i as int]);
        assert(out@ =~= o1 + join(parts.take(i + 1)));
        i += 1;
    }
    assert(parts.take(entries@.len() as int) =~= parts);
    push_str(out, "}");
    reveal(bindings_json_spec);
    assert(final(out)@ =~= old(out)@ + bindings_json_spec(*bindings));
}

fn write_refs(out: &mut String, refs: &Vec<InputReference>)
    ensures
        final(out)@ == old(out)@ + join(refs@.map_values(|x: InputReference| reference_view(x))
            .map_values(|r: (Seq<char>, Seq<char>, Span)| ref_json(r))),
{
    let ghost parts = refs@.map_values(|x: InputReference| ref_json(reference_view(x)));
    let ghost o1 = out@;
    let mut i: usize = 0;
    while i < refs.len()
        invariant
            i <= refs@.len(),
            parts == refs@.map_values(|x: InputReference| ref_json(reference_view(x))),
            out@ == o1 + join(parts.take(i as int)),
        decreases refs@.len() - i,
    {
        proof { lemma_join_step(parts, i as int); }
        write_comma(out, i);
        let ghost mid = out@;
        let r = &refs[i];
        push_str(out, "{\"id\":");
        write_quote(out, r.id.as_str());
        push_str(out, ",\"name\":");
        write_quote(out, r.name.as_str());
        push_str(out, ",\"span\":");
        write_span(out, r.span);
        push_str(out, "}");
        assert(out@ =~= mid + ref_json(reference_view(*r)));
        assert(parts[i as int] == ref_json(reference_view(*r)));
        assert(out@ =~= o1 + join(parts.take(i + 1)));
        i += 1;
    }
    assert(parts.take(refs@.len() as int) =~= parts);
    assert(parts =~= refs@.map_values(|x: InputReference| reference_view(x))
        .map_values(|r: (Seq<char>, Seq<char>, Span)| ref_json(r)));
}

/// The bound-execution document. Source and schema are included even when compilation
/// failed; a compiled policy adds its input-reference locations.
pub fn render(source: &str, inputs: &[InputSpec], bindings: &InputBindings, compiled: Option<&CompiledExpression>,
    limits: Limits, phase: &str, outcome: &Outcome) -> (s: String)
    ensures s@ == bound_render_spec(source@, inputs@, *bindings, refs_of(compiled), limits, phase@, *outcome),
{
    let refs: Vec<InputReference> = match compiled {
        Some(p) => p.input_references(),
        None => Vec::new(),
    };
    proof {
        if compiled is None {
            assert(refs@.map_values(|x: InputReference| reference_view(x)) =~= refs_of(compiled));
        }
    }
    let mut s = String::new();
    push_str(&mut s, "{\"schema\":\"cannon.native.bound-expression/1\",\"inputs\":");
    write_inputs(&mut s, inputs);
    push_str(&mut s, ",\"bindings\":");
    write_bindings(&mut s, bindings);
    push_str(&mut s, ",\"inputReferences\":[");
    write_refs(&mut s, &refs);
    push_str(&mut s, "],\"execution\":");
    write_render(&mut s, source, "argument.policy", limits, phase, outcome);
    push_str(&mut s, "}");
    assert(s@ =~= bound_render_spec(source@, inputs@, *bindings, refs_of(compiled), limits, phase@, *outcome));
    s
}

#[verifier::opaque]
pub open spec fn snapshot_json(s: PolicySnapshot) -> Seq<char> {
    "{\"source\":"@ + q(s.source@) + ",\"inputs\":"@ + inputs_json_spec(s.inputs@) + "}"@
}

pub open spec fn change_json(c: Change) -> Seq<char> {
    "{\"id\":"@ + q(c.id@) + ",\"kind\":"@ + q(c.kind@) + "}"@
}

#[verifier::opaque]
pub open spec fn changes_json(cs: Seq<Change>) -> Seq<char> {
    "["@ + join(cs.map_values(|c: Change| change_json(c))) + "]"@
}

#[verifier::opaque]
pub open spec fn result_json(source: Seq<char>, limits: Limits, uri: Seq<char>, r: CaseResult) -> Seq<char> {
    "{\"id\":"@ + q(r.case.id@) + ",\"name\":"@ + q(r.case.name@) + ",\"inputs\":"@ + bindings_json_spec(r.case.inputs)
        + ",\"expected\":"@ + value_json_spec(r.case.expected@) + ",\"passed\":"@ + bool_text(r.passed)
        + ",\"execution\":"@ + render_spec(source, uri, limits, "execution"@, r.outcome) + "}"@
}

#[verifier::opaque]
pub open spec fn results_json(source: Seq<char>, rs: Seq<CaseResult>, limits: Limits, uri: Seq<char>) -> Seq<char> {
    "["@ + join(rs.map_values(|r: CaseResult| result_json(source, limits, uri, r))) + "]"@
}

pub open spec fn status_text(s: SuiteStatus) -> Seq<char> {
    match s { SuiteStatus::Passed => "passed"@, SuiteStatus::Failed => "failed"@, SuiteStatus::NoCases => "no-cases"@ }
}

#[verifier::opaque]
pub open spec fn review_head(r: PolicyReview) -> Seq<char> {
    "{\"schema\":\"cannon.native.policy-review/1\",\"engineVersion\":"@ + q(ENGINE_VERSION@)
        + ",\"baseline\":"@ + snapshot_json(r.baseline) + ",\"candidate\":"@ + snapshot_json(r.candidate)
        + ",\"logicChanged\":"@ + bool_text(r.logic_changed)
        + ",\"inputChanges\":"@ + changes_json(r.input_changes@) + ",\"caseChanges\":"@ + changes_json(r.case_changes@)
}

#[verifier::opaque]
pub open spec fn review_verdict(r: PolicyReview) -> Seq<char> {
    ",\"baselineStatus\":"@ + q(status_text(spec_status(r.baseline_results@)))
        + ",\"candidateStatus\":"@ + q(status_text(spec_status(r.candidate_results@)))
        + ",\"historicalStatus\":"@ + q(status_text(spec_status(r.historical_results@)))
        + ",\"passed\":"@ + bool_text(review_passed(r))
        + ",\"regressions\":["@ + join(spec_regressions(r).map_values(|id: Seq<char>| q(id))) + "]"@
}

#[verifier::opaque]
pub open spec fn review_limits_json(r: PolicyReview) -> Seq<char> {
    ",\"limits\":{\"maxSteps\":"@ + decimal(r.limits.execution.max_steps as nat) + ",\"maxDepth\":"@
        + decimal(r.limits.execution.max_depth as nat) + ",\"maxTrace\":"@ + decimal(r.limits.execution.max_trace as nat)
        + ",\"maxEvents\":"@ + decimal(r.limits.max_events as nat) + ",\"maxTextUnits\":"@
        + decimal(r.limits.max_text_units as nat) + "}"@
}

#[verifier::opaque]
pub open spec fn review_results(r: PolicyReview) -> Seq<char> {
    ",\"baselineResults\":"@ + results_json(r.baseline.source@, r.baseline_results@, r.limits.execution, "baseline.policy"@)
        + ",\"candidateResults\":"@ + results_json(r.candidate.source@, r.candidate_results@, r.limits.execution, "candidate.policy"@)
        + ",\"historicalResults\":"@ + results_json(r.candidate.source@, r.historical_results@, r.limits.execution, "candidate.policy"@)
        + "}"@
}

/// The review document.
pub open spec fn review_json(r: PolicyReview) -> Seq<char> {
    review_head(r) + review_verdict(r) + review_limits_json(r) + review_results(r)
}

fn write_bool(out: &mut String, b: bool)
    ensures final(out)@ == old(out)@ + bool_text(b),
{
    if b {
        push_str(out, "true");
        proof { reveal_strlit("true"); }
    } else {
        push_str(out, "false");
        proof { reveal_strlit("false"); }
    }
    assert(final(out)@ =~= old(out)@ + bool_text(b));
}

fn write_snapshot(out: &mut String, s: &PolicySnapshot)
    ensures final(out)@ == old(out)@ + snapshot_json(*s),
{
    push_str(out, "{\"source\":");
    write_quote(out, s.source.as_str());
    push_str(out, ",\"inputs\":");
    write_inputs(out, s.inputs.as_slice());
    push_str(out, "}");
    reveal(snapshot_json);
    assert(final(out)@ =~= old(out)@ + snapshot_json(*s));
}

fn write_changes(out: &mut String, cs: &Vec<Change>)
    ensures final(out)@ == old(out)@ + changes_json(cs@),
{
    let ghost parts = cs@.map_values(|c: Change| change_json(c));
    push_str(out, "[");
    let ghost o1 = out@;
    let mut i: usize = 0;
    while i < cs.len()
        invariant
            i <= cs@.len(), parts == cs@.map_values(|c: Change| change_json(c)),
            out@ == o1 + join(parts.take(i as int)),
        decreases cs@.len() - i,
    {
        proof { lemma_join_step(parts, i as int); }
        write_comma(out, i);
        let ghost mid = out@;
        push_str(out, "{\"id\":");
        write_quote(out, cs[i].id.as_str());
        push_str(out, ",\"kind\":");
        write_quote(out, cs[i].kind);
        push_str(out, "}");
        assert(out@ =~= mid + parts[i as int]);
        assert(out@ =~= o1 + join(parts.take(i + 1)));
        i += 1;
    }
    assert(parts.take(cs@.len() as int) =~= parts);
    push_str(out, "]");
    reveal(changes_json);
    assert(final(out)@ =~= old(out)@ + changes_json(cs@));
}

fn write_result(out: &mut String, source: &str, limits: Limits, uri: &str, r: &CaseResult)
    ensures final(out)@ == old(out)@ + result_json(source@, limits, uri@, *r),
{
    push_str(out, "{\"id\":");
    write_quote(out, r.case.id.as_str());
    push_str(out, ",\"name\":");
    write_quote(out, r.case.name.as_str());
    push_str(out, ",\"inputs\":");
    write_bindings(out, &r.case.inputs);
    push_str(out, ",\"expected\":");
    write_value(out, &r.case.expected);
    push_str(out, ",\"passed\":");
    write_bool(out, r.passed);
    push_str(out, ",\"execution\":");
    write_render(out, source, uri, limits, "execution", &r.outcome);
    push_str(out, "}");
    reveal(result_json);
    assert(final(out)@ =~= old(out)@ + result_json(source@, limits, uri@, *r));
}

fn write_results(out: &mut String, source: &str, rs: &Vec<CaseResult>, limits: Limits, uri: &str)
    ensures final(out)@ == old(out)@ + results_json(source@, rs@, limits, uri@),
{
    let ghost parts = rs@.map_values(|r: CaseResult| result_json(source@, limits, uri@, r));
    push_str(out, "[");
    let ghost o1 = out@;
    let mut i: usize = 0;
    while i < rs.len()
        invariant
            i <= rs@.len(), parts == rs@.map_values(|r: CaseResult| result_json(source@, limits, uri@, r)),
            out@ == o1 + join(parts.take(i as int)),
        decreases rs@.len() - i,
    {
        proof { lemma_join_step(parts, i as int); }
        write_comma(out, i);
        write_result(out, source, limits, uri, &rs[i]);
        assert(out@ =~= o1 + join(parts.take(i + 1)));
        i += 1;
    }
    assert(parts.take(rs@.len() as int) =~= parts);
    push_str(out, "]");
    reveal(results_json);
    assert(final(out)@ =~= old(out)@ + results_json(source@, rs@, limits, uri@));
}

fn status_word(s: SuiteStatus) -> (w: &'static str)
    ensures w@ == status_text(s),
{
    match s { SuiteStatus::Passed => "passed", SuiteStatus::Failed => "failed", SuiteStatus::NoCases => "no-cases" }
}

fn write_review_head(out: &mut String, review: &PolicyReview)
    ensures final(out)@ == old(out)@ + review_head(*review),
{
    push_str(out, "{\"schema\":\"cannon.native.policy-review/1\",\"engineVersion\":");
    write_quote(out, ENGINE_VERSION);
    push_str(out, ",\"baseline\":");
    write_snapshot(out, &review.baseline);
    push_str(out, ",\"candidate\":");
    write_snapshot(out, &review.candidate);
    push_str(out, ",\"logicChanged\":");
    write_bool(out, review.logic_changed);
    push_str(out, ",\"inputChanges\":");
    write_changes(out, &review.input_changes);
    push_str(out, ",\"caseChanges\":");
    write_changes(out, &review.case_changes);
    reveal(review_head);
    assert(final(out)@ =~= old(out)@ + review_head(*review));
}

#[verifier::rlimit(40)]
fn write_review_verdict(out: &mut String, review: &PolicyReview)
    ensures final(out)@ == old(out)@ + review_verdict(*review),
{
    push_str(out, ",\"baselineStatus\":");
    write_quote(out, status_word(PolicyReview::status(review.baseline_results.as_slice())));
    push_str(out, ",\"candidateStatus\":");
    write_quote(out, status_word(PolicyReview::status(review.candidate_results.as_slice())));
    push_str(out, ",\"historicalStatus\":");
    write_quote(out, status_word(PolicyReview::status(review.historical_results.as_slice())));
    push_str(out, ",\"passed\":");
    write_bool(out, review.passed());
    push_str(out, ",\"regressions\":[");
    let regressions = review.regressions();
    let ghost parts = spec_regressions(*review).map_values(|id: Seq<char>| q(id));
    let ghost o1 = out@;
    let mut i: usize = 0;
    while i < regressions.len()
        invariant
            i <= regressions@.len(),
            regressions@.map_values(|s: &str| s@) == spec_regressions(*review),
            parts == spec_regressions(*review).map_values(|id: Seq<char>| q(id)),
            out@ == o1 + join(parts.take(i as int)),
        decreases regressions@.len() - i,
    {
        proof { lemma_join_step(parts, i as int); }
        write_comma(out, i);
        write_quote(out, regressions[i]);
        proof { assert(regressions@.map_values(|s: &str| s@)[i as int] == regressions@[i as int]@); }
        assert(out@ =~= o1 + join(parts.take(i + 1)));
        i += 1;
    }
    assert(parts.take(regressions@.len() as int) =~= parts);
    push_str(out, "]");
    reveal(review_verdict);
    assert(final(out)@ =~= old(out)@ + review_verdict(*review));
}

fn write_review_limits(out: &mut String, review: &PolicyReview)
    ensures final(out)@ == old(out)@ + review_limits_json(*review),
{
    let l = review.limits;
    push_str(out, ",\"limits\":{\"maxSteps\":");
    write_decimal(out, l.execution.max_steps as u64);
    push_str(out, ",\"maxDepth\":");
    write_decimal(out, l.execution.max_depth as u64);
    push_str(out, ",\"maxTrace\":");
    write_decimal(out, l.execution.max_trace as u64);
    push_str(out, ",\"maxEvents\":");
    write_decimal(out, l.max_events as u64);
    push_str(out, ",\"maxTextUnits\":");
    write_decimal(out, l.max_text_units as u64);
    push_str(out, "}");
    reveal(review_limits_json);
    assert(final(out)@ =~= old(out)@ + review_limits_json(*review));
}

fn write_review_results(out: &mut String, review: &PolicyReview)
    ensures final(out)@ == old(out)@ + review_results(*review),
{
    let l = review.limits.execution;
    push_str(out, ",\"baselineResults\":");
    write_results(out, review.baseline.source.as_str(), &review.baseline_results, l, "baseline.policy");
    push_str(out, ",\"candidateResults\":");
    write_results(out, review.candidate.source.as_str(), &review.candidate_results, l, "candidate.policy");
    push_str(out, ",\"historicalResults\":");
    write_results(out, review.candidate.source.as_str(), &review.historical_results, l, "candidate.policy");
    push_str(out, "}");
    reveal(review_results);
    assert(final(out)@ =~= old(out)@ + review_results(*review));
}

/// The verdict part of a review document, as the suites' own results give it: the status
/// word of the baseline, candidate and historical suites, each under its own key, and
/// `passed`, which holds exactly when all three words are `"passed"`.
pub open spec fn verdict_from_suites(r: PolicyReview) -> Seq<char> {
    let b = suite_word(r.baseline_results@);
    let c = suite_word(r.candidate_results@);
    let h = suite_word(r.historical_results@);
    ",\"baselineStatus\":"@ + q(b) + ",\"candidateStatus\":"@ + q(c) + ",\"historicalStatus\":"@ + q(h)
        + ",\"passed\":"@ + bool_text(b == "passed"@ && c == "passed"@ && h == "passed"@)
}

/// Law: the review document states, under `baselineStatus`, `candidateStatus` and
/// `historicalStatus`, how each suite went on its own results: `"failed"` when one of its
/// results did not pass, `"passed"` when it has some and all passed, `"no-cases"` when it
/// has none; so a historical failure is reported as such whatever the candidate's own
/// suite did. `passed` is `true` exactly when all three suites passed.
pub proof fn lemma_review_reports_suite_statuses(r: PolicyReview)
    ensures
        exists|pre: Seq<char>, post: Seq<char>| #[trigger] splits_as(review_json(r), pre, verdict_from_suites(r), post),
{
    reveal_strlit("passed");
    reveal_strlit("failed");
    reveal_strlit("no-cases");
    assert("passed"@ != "failed"@) by { assert("passed"@[0] != "failed"@[0]); }
    assert("passed"@ != "no-cases"@) by { assert("passed"@.len() != "no-cases"@.len()); }
    assert(status_text(spec_status(r.baseline_results@)) == suite_word(r.baseline_results@));
    assert(status_text(spec_status(r.candidate_results@)) == suite_word(r.candidate_results@));
    assert(status_text(spec_status(r.historical_results@)) == suite_word(r.historical_results@));
    let v = verdict_from_suites(r);
    let tail = ",\"regressions\":["@ + join(spec_regressions(r).map_values(|id: Seq<char>| q(id))) + "]"@;
    assert(review_verdict(r) == v + tail) by {
        reveal(review_verdict);
        assert(review_verdict(r) =~= v + tail);
    }
    let pre = review_head(r);
    let post = tail + review_limits_json(r) + review_results(r);
    assert(review_json(r) =~= pre + v + post);
    assert(splits_as(review_json(r), pre, v, post));
}

/// How a list of example results went: `"no-cases"` when empty, `"failed"` when one of
/// them did not pass, `"passed"` otherwise.
pub open spec fn suite_word(rs: Seq<CaseResult>) -> Seq<char> {
    if rs.len() == 0 { "no-cases"@ }
    else if exists|i: int| 0 <= i < rs.len() && !(#[trigger] rs[i]).passed { "failed"@ }
    else { "passed"@ }
}

/// `doc` is `part` with `pre` before it and `post` after it.
pub open spec fn splits_as(doc: Seq<char>, pre: Seq<char>, part: Seq<char>, post: Seq<char>) -> bool {
    doc == pre + part + post
}

/// The review document: both snapshots, logic/input/example changes, suite verdicts,
/// regressions, budgets, and every run.
pub fn render_review(review: &PolicyReview) -> (s: String)
    ensures s@ == review_json(*review),
{
    let mut s = String::new();
    write_review_head(&mut s, review);
    write_review_verdict(&mut s, review);
    write_review_limits(&mut s, review);
    write_review_results(&mut s, review);
    assert(s@ =~= review_json(*review));
    s
}

} // verus!
