use std::ops::ControlFlow;
use std::sync::Arc;

use cannon_core::{compile_expression, compile_with_inputs, evaluate, evaluate_observed, report, CancellationToken, IdMap,
    IdSet, InputBindings, InputSpec, InputType, Limits, ObservationOptions, Value};
use cannon_core::graph::{reach, topological};
use cannon_core::policy_review::{review_policies, PolicyCase, ReviewLimits};
use cannon_core::project::{compile_project, execute_project, CompiledProject, InputSource, ModuleSpec, OwnedInput,
    PolicySpec, ProjectError, ProjectLimits, ProjectSpec};
use cannon_core::project_review::{compare_projects, review_projects, ProjectCase, ProjectReviewLimits};
use cannon_core::session::{Author, HistoricalPolicy, PolicyDocument, PolicySession, SessionError};

fn two_policy_project(second: &str) -> Arc<CompiledProject> {
    let first = PolicySpec { id: "first".into(), name: "First".into(), module: "M".into(), exported: false,
        uri: "memory:first".into(), source: "n + 1".into(), inputs: vec![InputSpec::new("in", "n", InputType::Int)],
        links: IdMap::from(vec![("in".into(), InputSource::External("n".into()))]) };
    let then = PolicySpec { id: "second".into(), name: "Second".into(), module: "M".into(), exported: false,
        uri: "memory:second".into(), source: second.into(), inputs: vec![InputSpec::new("in", "m", InputType::Int)],
        links: IdMap::from(vec![("in".into(), InputSource::Policy("first".into()))]) };
    let spec = ProjectSpec {
        modules: vec![ModuleSpec { id: "M".into(), name: "Module".into(), imports: IdSet::new() }],
        inputs: vec![OwnedInput { module: "M".into(), spec: InputSpec::new("n", "n", InputType::Int) }],
        policies: vec![then, first],
    };
    compile_project(&spec).unwrap()
}

fn bindings(n: i64) -> InputBindings {
    InputBindings::from(vec![("n".into(), Value::Int(n))])
}

#[test]
fn a_project_compared_with_itself_has_no_change_or_impact() {
    let p = two_policy_project("m * 2");
    let d = compare_projects(&p, &p);
    assert!(d.changes.is_empty());
    assert!(d.impacted_policies.is_empty());
}

#[test]
fn a_logic_change_impacts_the_policy_and_its_consumers_only() {
    let a = two_policy_project("m * 2");
    let b = two_policy_project("m * 3");
    let d = compare_projects(&a, &b);
    let kinds: Vec<(&str, &str, &str)> = d.changes.iter().map(|c| (c.scope, c.id.as_str(), c.kind)).collect();
    assert_eq!(kinds, vec![("policy", "second", "source-text-changed"), ("policy", "second", "logic-changed")]);
    assert_eq!(d.impacted_policies, IdSet::from(vec!["second".into()]));
}

#[test]
fn a_successful_project_run_executes_every_policy_once_in_order() {
    let p = two_policy_project("m * 2");
    let r = execute_project(&p, &bindings(4), ProjectLimits::default());
    let ids: Vec<&str> = r.nodes().iter().map(|n| n.id()).collect();
    assert_eq!(ids, vec!["first", "second"]);
    assert_eq!(p.order(), &["first", "second"]);
    let values = r.result().as_ref().unwrap();
    assert_eq!(values.get("first"), Some(&Value::Int(5)));
    assert_eq!(values.get("second"), Some(&Value::Int(10)));
    assert_eq!(values.len(), 2);
}

#[test]
fn observing_does_not_change_the_result() {
    let p = compile_expression("if 2 * 3 <= 6 then \"ok\" else \"no\"").unwrap();
    let plain = evaluate(&p, Limits::default());
    let options = ObservationOptions { retain_trace: false, ..ObservationOptions::default() };
    let observed = evaluate_observed(&p, Limits::default(), options, &CancellationToken::new(), |_| ControlFlow::Continue(()));
    assert_eq!(observed.outcome.result, plain.result);
    assert_eq!(observed.outcome.steps, plain.steps);
    assert_eq!(observed.emitted_events, plain.trace.len());
    assert!(observed.outcome.trace.is_empty());
}

#[test]
fn same_logic_is_reflexive_and_symmetric() {
    let a = compile_expression("1 + 2 * 3").unwrap();
    let b = compile_expression("1 + (2 * 3) // same tree").unwrap();
    let c = compile_expression("(1 + 2) * 3").unwrap();
    assert!(a.same_logic(&a));
    assert_eq!(a.same_logic(&b), b.same_logic(&a));
    assert!(a.same_logic(&b));
    assert_eq!(a.same_logic(&c), c.same_logic(&a));
    assert!(!a.same_logic(&c));
}

#[test]
fn project_review_with_a_regression_does_not_pass() {
    let a = two_policy_project("m * 2");
    let b = two_policy_project("m * 3");
    let case = ProjectCase { id: "four".into(), name: "Four".into(), inputs: bindings(4),
        expected: InputBindings::from(vec![("second".into(), Value::Int(10))]) };
    let r = review_projects(&a, &b, std::slice::from_ref(&case), std::slice::from_ref(&case), ProjectReviewLimits::default(),
        &CancellationToken::new()).unwrap();
    assert_eq!(r.regressions(), ["four"]);
    assert!(!r.passed());
    assert_eq!(r.historical_results()[0].failed_assertions(), &["second"]);
}

#[test]
fn project_review_refuses_invalid_aggregate_limits() {
    let p = two_policy_project("m * 2");
    for limits in [ProjectReviewLimits { max_steps: 0, ..ProjectReviewLimits::default() },
        ProjectReviewLimits { max_steps: 10_000_001, ..ProjectReviewLimits::default() },
        ProjectReviewLimits { max_events: 1_000_001, ..ProjectReviewLimits::default() },
        ProjectReviewLimits { max_text_units: 16_777_217, ..ProjectReviewLimits::default() },
        ProjectReviewLimits { execution: ProjectLimits { max_events: 0, ..ProjectLimits::default() }, ..ProjectReviewLimits::default() }] {
        let e = review_projects(&p, &p, &[], &[], limits, &CancellationToken::new()).unwrap_err();
        assert_eq!(e.code, "INVALID_LIMIT");
    }
}

#[test]
fn project_review_refuses_blank_names_and_oversized_suites() {
    let p = two_policy_project("m * 2");
    let mut blank = ProjectCase { id: "x".into(), name: " \t".into(), inputs: bindings(1), expected: InputBindings::new() };
    let e = review_projects(&p, &p, std::slice::from_ref(&blank), &[], ProjectReviewLimits::default(), &CancellationToken::new()).unwrap_err();
    assert_eq!(e.code, "PROJECT_CASE_SCHEMA");
    blank.name = "ok".into();
    let many: Vec<ProjectCase> = (0..65).map(|i| ProjectCase { id: format!("c{i}"), ..blank.clone() }).collect();
    let e = review_projects(&p, &p, &many, &[], ProjectReviewLimits::default(), &CancellationToken::new()).unwrap_err();
    assert_eq!(e.code, "PROJECT_CASE_SCHEMA");
    let e = review_projects(&p, &p, &[], &many, ProjectReviewLimits::default(), &CancellationToken::new()).unwrap_err();
    assert_eq!(e.code, "PROJECT_CASE_SCHEMA");
}

#[test]
fn project_errors_render_code_subject_and_message() {
    let e = ProjectError { code: "LINK_SCHEMA", subject: Some("p".into()), message: "Bad link.".into(), diagnostic: None };
    assert_eq!(e.to_text(), "LINK_SCHEMA [p]: Bad link.");
    let e = ProjectError { code: "PROJECT_SCHEMA", subject: None, message: "Bad.".into(), diagnostic: None };
    assert_eq!(e.to_text(), "PROJECT_SCHEMA: Bad.");
}

#[test]
fn session_errors_render_their_code_first() {
    assert_eq!(SessionError::Closed.to_text(), "SESSION_CLOSED: this session is closed");
    assert_eq!(SessionError::RevisionExhausted.to_text(), "REVISION_EXHAUSTED: revision numbers must never wrap");
    let d = compile_expression("1 +").unwrap_err();
    let text = SessionError::InvalidMetadata(d.clone()).to_text();
    assert_eq!(text, format!("{}: {}", d.code, d.message));
    for e in [SessionError::StaleBase, SessionError::InvalidUri, SessionError::InvalidReason, SessionError::SourceLimit,
        SessionError::CaseTextLimit, SessionError::UnknownCase, SessionError::InvalidCandidate, SessionError::ReviewUnavailable,
        SessionError::BaselineNotVerified, SessionError::CandidateNotVerified, SessionError::HistoricalExecutionFailed,
        SessionError::HistoricalExpectationFailed] {
        let t = e.to_text();
        let code = t.split(':').next().unwrap();
        assert!(!code.is_empty() && code.chars().all(|c| c.is_ascii_uppercase() || c == '_'), "{t}");
    }
}

fn one_case_document(source: &str, expected: i64) -> PolicyDocument {
    PolicyDocument { source: source.into(), inputs: vec![], cases: vec![PolicyCase { id: "c".into(), name: "c".into(),
        inputs: InputBindings::new(), expected: Value::Int(expected) }] }
}

#[test]
fn an_accepted_review_installs_a_candidate_whose_own_cases_passed() {
    let mut s = PolicySession::new("memory:law", one_case_document("1", 1)).unwrap();
    let review = s.propose(&s.snapshot(), one_case_document("2 - 1", 1), "same answer", Author::Human).unwrap()
        .preview(ReviewLimits::default());
    let report = review.report().unwrap();
    assert!(report.candidate_results.iter().all(|r| r.passed));
    let installed = s.apply(&review, HistoricalPolicy::Preserve).unwrap();
    assert_eq!(installed.revision(), 2);
    assert_eq!(installed.source(), "2 - 1");
    assert!(s.is_current(&installed));
    assert_eq!(s.apply(&review, HistoricalPolicy::Preserve).unwrap_err(), SessionError::StaleBase);
}

#[test]
fn every_accepted_edit_advances_the_revision_by_one() {
    let mut s = PolicySession::new("memory:law", one_case_document("1", 1)).unwrap();
    for (n, source) in ["1", "1", "2", "1"].iter().enumerate() {
        let before = s.snapshot();
        let after = s.edit_source(&before, source).unwrap();
        assert_eq!(after.revision(), before.revision() + 1);
        assert_eq!(after.revision(), n as u64 + 2);
        assert!(!s.is_current(&before));
        assert!(s.is_current(&after));
    }
}

#[test]
fn snapshot_handles_share_their_revision_and_cancellation_flags_are_shared() {
    let s = PolicySession::new("memory:law", one_case_document("1", 1)).unwrap();
    let a = s.snapshot();
    let b = a.clone();
    assert!(a.same_revision(&b));
    assert!(s.is_current(&b));
    let token = CancellationToken::new();
    let other = token.clone();
    other.cancel();
    assert!(token.is_cancelled());
}

#[test]
fn closed_sessions_refuse_every_change() {
    let mut s = PolicySession::new("memory:law", one_case_document("1", 1)).unwrap();
    let base = s.snapshot();
    s.close();
    assert_eq!(s.edit_policy(&base, "1", &[]).unwrap_err(), SessionError::Closed);
    assert_eq!(s.revise_cases(&base, &[]).unwrap_err(), SessionError::Closed);
    assert_eq!(s.propose(&base, one_case_document("2", 2), "why", Author::Assistant).unwrap_err(), SessionError::Closed);
}

#[test]
fn maps_keep_the_last_value_of_a_repeated_key_in_key_order() {
    let m = IdMap::from(vec![("b".to_owned(), 1), ("a".to_owned(), 2), ("b".to_owned(), 3)]);
    assert_eq!(m.len(), 2);
    assert_eq!(m.get("b"), Some(&3));
    let keys: Vec<&str> = m.entries().iter().map(|e| e.0.as_str()).collect();
    assert_eq!(keys, vec!["a", "b"]);
    let mut n = m.clone();
    assert_eq!(n.remove("a"), Some(2));
    assert_eq!(n.insert("c".into(), 4), None);
    assert!(!n.contains_key("a") && n.contains_key("c") && m.contains_key("a"));
}

#[test]
fn sets_are_sorted_and_deduplicated() {
    let s = IdSet::from(vec!["z".into(), "a".into(), "z".into()]);
    assert_eq!(s.len(), 2);
    let items: Vec<&str> = s.items().iter().map(|x| x.as_str()).collect();
    assert_eq!(items, vec!["a", "z"]);
    assert!(s.same(&IdSet::from(vec!["a".into(), "z".into()])));
    assert!(!s.same(&IdSet::from(vec!["a".into()])));
}

#[test]
fn dependency_order_and_reach_follow_the_graph() {
    let g: IdMap<IdSet> = IdMap::from(vec![("c".into(), IdSet::from(vec!["b".into()])), ("b".into(), IdSet::from(vec!["a".into()])),
        ("a".into(), IdSet::new()), ("d".into(), IdSet::new())]);
    assert_eq!(topological(&g), Some(vec!["a".to_owned(), "b".to_owned(), "c".to_owned(), "d".to_owned()]));
    assert_eq!(reach(&g, &IdSet::from(vec!["b".into()])), IdSet::from(vec!["b".into(), "c".into()]));
    let cyclic: IdMap<IdSet> = IdMap::from(vec![("x".into(), IdSet::from(vec!["y".into()])), ("y".into(), IdSet::from(vec!["x".into()]))]);
    assert_eq!(topological(&cyclic), None);
}

#[test]
fn json_quoting_escapes_exactly() {
    assert_eq!(report::quote("a\"b\\c"), "\"a\\\"b\\\\c\"");
    assert_eq!(report::quote_units(&[0x41, 0x1f]), "\"A\\u001f\"");
    assert_eq!(report::value_json(&Value::Int(-42)), "-42");
    assert_eq!(report::value_json(&Value::Bool(false)), "false");
}

#[test]
fn policy_review_rejects_mismatched_expectations_without_hiding_them() {
    let p = compile_with_inputs("x * 2", &[InputSpec::new("x", "x", InputType::Int)]).unwrap();
    let case = PolicyCase { id: "c".into(), name: "c".into(), inputs: InputBindings::from(vec![("x".into(), Value::Int(2))]),
        expected: Value::Int(5) };
    let r = review_policies(&p, &p, std::slice::from_ref(&case), std::slice::from_ref(&case), ReviewLimits::default()).unwrap();
    assert!(!r.passed());
    assert!(r.regressions().is_empty());
    assert!(!r.baseline_results[0].passed);
    assert_eq!(r.baseline_results[0].outcome.result, Ok(Value::Int(4)));
}
