use cannon_core::{compile_expression, evaluate, IdMap, IdSet, InputBindings, InputSpec, InputType, Limits, Span, Value};
use cannon_core::project::{compile_project, execute_project, InputSource, ModuleSpec, OwnedInput, PolicySpec,
    ProjectLimits, ProjectSpec};

fn span(start: usize, end: usize, line: usize, column: usize) -> Span {
    Span { start, end, line, column }
}

#[test]
fn an_unterminated_string_is_refused_at_its_opening_quote() {
    let d = compile_expression("1 + \"abc").unwrap_err();
    assert_eq!(d.code, "PARSE_ERROR");
    assert_eq!(d.message, "Unterminated string.");
    assert_eq!(d.span, span(4, 4, 1, 5));
}

#[test]
fn an_unknown_name_is_reported_where_it_stands() {
    let d = compile_expression("1 +\n  price").unwrap_err();
    assert_eq!(d.code, "UNKNOWN_NAME");
    assert_eq!(d.message, "Unknown input price; calls are not supported here.");
    assert_eq!(d.span, span(6, 11, 2, 3));
}

#[test]
fn a_missing_closing_parenthesis_is_expected_at_the_end() {
    let d = compile_expression("(1").unwrap_err();
    assert_eq!(d.code, "PARSE_ERROR");
    assert_eq!(d.message, "Expected ).");
    assert_eq!(d.span, span(2, 2, 1, 3));
}

#[test]
fn an_integer_literal_beyond_the_domain_is_refused_over_its_digits() {
    let d = compile_expression("9007199254740992").unwrap_err();
    assert_eq!(d.code, "PARSE_ERROR");
    assert_eq!(d.message, "Integer literal is outside the safe integer range.");
    assert_eq!(d.span, span(0, 16, 1, 1));
    assert!(compile_expression("0009007199254740991").is_ok());
}

#[test]
fn a_token_after_the_expression_is_refused() {
    let d = compile_expression("1 2").unwrap_err();
    assert_eq!(d.code, "PARSE_ERROR");
    assert_eq!(d.message, "Unexpected token after expression.");
    assert_eq!(d.span, span(2, 3, 1, 3));
}

#[test]
fn operators_bind_by_precedence_and_group_to_the_left() {
    let p = compile_expression("10 - 2 - 3 * 2 == 2 and not false").unwrap();
    assert_eq!(evaluate(&p, Limits::default()).result, Ok(Value::Bool(true)));
    let q = compile_expression("-2 * 3 // a comment\n").unwrap();
    assert_eq!(evaluate(&q, Limits::default()).result, Ok(Value::Int(-6)));
}

#[test]
fn the_step_budget_stops_at_the_node_that_exceeds_it() {
    let p = compile_expression("1 + 2").unwrap();
    let r = evaluate(&p, Limits { max_steps: 1, ..Limits::default() });
    let d = r.result.unwrap_err();
    assert_eq!(d.code, "STEP_LIMIT");
    assert_eq!(d.span, span(0, 1, 1, 1));
}

#[test]
fn the_event_budget_stops_at_the_event_that_exceeds_it() {
    let p = compile_expression("1 + 2").unwrap();
    let r = evaluate(&p, Limits { max_trace: 1, ..Limits::default() });
    let d = r.result.unwrap_err();
    assert_eq!(d.code, "TRACE_LIMIT");
    assert_eq!(d.span, span(4, 5, 1, 5));
    assert_eq!(r.trace.len(), 1);
}

#[test]
fn leaving_the_integer_domain_stops_at_the_operator() {
    let p = compile_expression("9007199254740991 + 1").unwrap();
    let d = evaluate(&p, Limits::default()).result.unwrap_err();
    assert_eq!(d.code, "INTEGER_RANGE");
    assert_eq!(d.span, span(0, 20, 1, 1));
}

fn policy(id: &str, source: &str, links: Vec<(String, InputSource)>, inputs: Vec<InputSpec>) -> PolicySpec {
    PolicySpec { id: id.into(), name: id.into(), module: "M".into(), exported: false, uri: format!("memory:{id}"),
        source: source.into(), inputs, links: IdMap::from(links) }
}

fn project(policies: Vec<PolicySpec>) -> ProjectSpec {
    ProjectSpec {
        modules: vec![ModuleSpec { id: "M".into(), name: "Module".into(), imports: IdSet::new() }],
        inputs: vec![OwnedInput { module: "M".into(), spec: InputSpec::new("n", "n", InputType::Int) }],
        policies,
    }
}

#[test]
fn the_policy_with_the_least_id_reports_a_compile_failure() {
    let s = project(vec![policy("zeta", "1 +", vec![], vec![]), policy("alpha", "(", vec![], vec![])]);
    let e = compile_project(&s).unwrap_err();
    assert_eq!(e.code, "POLICY_COMPILE");
    assert_eq!(e.subject.as_deref(), Some("alpha"));
}

#[test]
fn declarations_are_checked_before_any_policy_compiles() {
    let mut s = project(vec![policy("p", "(", vec![], vec![])]);
    s.modules[0].name = " ".into();
    let e = compile_project(&s).unwrap_err();
    assert_eq!(e.code, "PROJECT_SCHEMA");
    assert_eq!(e.subject.as_deref(), Some("M"));
}

#[test]
fn a_link_to_an_external_input_of_the_wrong_type_is_refused() {
    let s = project(vec![policy("p", "b", vec![("b".into(), InputSource::External("n".into()))],
        vec![InputSpec::new("b", "b", InputType::Bool)])]);
    let e = compile_project(&s).unwrap_err();
    assert_eq!(e.code, "LINK_TYPE");
    assert_eq!(e.subject.as_deref(), Some("p"));
}

#[test]
fn a_spent_aggregate_budget_stops_before_the_next_policy() {
    let s = project(vec![
        policy("first", "n + 1", vec![("in".into(), InputSource::External("n".into()))], vec![InputSpec::new("in", "n", InputType::Int)]),
        policy("second", "m", vec![("in".into(), InputSource::Policy("first".into()))], vec![InputSpec::new("in", "m", InputType::Int)]),
    ]);
    let p = compile_project(&s).unwrap();
    let inputs = InputBindings::from(vec![("n".into(), Value::Int(1))]);
    let r = execute_project(&p, &inputs, ProjectLimits { max_steps: 3, ..ProjectLimits::default() });
    let e = r.result().as_ref().unwrap_err();
    assert_eq!(e.code, "PROJECT_BUDGET");
    assert_eq!(e.subject.as_deref(), Some("second"));
    assert_eq!(r.nodes().len(), 1);
    assert_eq!(r.steps(), 3);
}

#[test]
fn a_stopped_run_counts_the_step_that_exceeded_the_budget() {
    let p = compile_expression("1 + 2").unwrap();
    let r = evaluate(&p, Limits { max_steps: 2, ..Limits::default() });
    let d = r.result.unwrap_err();
    assert_eq!(d.code, "STEP_LIMIT");
    assert_eq!(d.span, span(4, 5, 1, 5));
    assert_eq!(r.steps, 3);
    assert_eq!(r.trace.len(), 1);
    assert_eq!(r.trace[0].kind, "literal");
}

#[test]
fn a_run_stopped_by_the_event_budget_keeps_the_events_before_it() {
    let p = compile_expression("1 + 2").unwrap();
    let r = evaluate(&p, Limits { max_trace: 1, ..Limits::default() });
    assert_eq!(r.steps, 3);
    assert_eq!(r.trace.len(), 1);
    assert_eq!(r.trace[0].span, span(0, 1, 1, 1));
}
