//! The interpreter: one evaluator for plain execution and for observed, budgeted execution.
use std::ops::ControlFlow;
use vstd::prelude::*;
use crate::cancel::CancellationToken;
use crate::inputs::{resolve, resolve_problem, has_undeclared, well_typed_values, spec_boundary_span, InputBindings, InputSpec};
use crate::syntax::{arena_ok, node_ok, max2, same_logic_spec, same_tree, CompiledExpression, Node, NodeKind, Op};
use crate::text::utf16_len;
use crate::{Diagnostic, Span, Value, ValueModel, model_type, in_domain, MAX_DEPTH, MAX_INT};

verus! {

/// Per-run budgets.
#[derive(Clone, Copy, Debug)]
pub struct Limits {
    pub max_steps: usize,
    pub max_depth: usize,
    pub max_trace: usize,
}

impl Default for Limits {
    fn default() -> (l: Self)
        ensures l.max_steps == 10_000, l.max_depth == MAX_DEPTH, l.max_trace == 10_000,
    {
        Limits { max_steps: 10_000, max_depth: MAX_DEPTH, max_trace: 10_000 }
    }
}

/// Whether a run accepts these budgets: all positive, depth at most 128, steps and trace
/// at most one million.
pub open spec fn limits_ok(l: Limits) -> bool {
    &&& 1 <= l.max_steps <= 1_000_000
    &&& 1 <= l.max_depth <= MAX_DEPTH
    &&& 1 <= l.max_trace <= 1_000_000
}

/// One observed evaluation event.
#[derive(Clone, Debug, PartialEq, Eq)]
pub struct TraceStep {
    pub kind: &'static str,
    pub label: &'static str,
    pub span: Span,
    pub value: Option<Value>,
}

/// The result of a run, its retained trace, and the steps it took.
#[derive(Debug)]
pub struct Outcome {
    pub result: Result<Value, Diagnostic>,
    pub trace: Vec<TraceStep>,
    pub steps: usize,
}

/// An equal copy of a result.
pub fn copy_result(r: &Result<Value, Diagnostic>) -> (c: Result<Value, Diagnostic>)
    ensures
        c is Ok <==> r is Ok,
        c matches Ok(v) ==> r matches Ok(w) && v@ == w@,
        c matches Err(d) ==> r matches Err(e) && d.code == e.code && d.message@ == e.message@ && d.span == e.span,
{
    match r {
        Ok(v) => Ok(v.duplicate()),
        Err(d) => Err(d.duplicate()),
    }
}

impl Clone for Outcome {
    fn clone(&self) -> (c: Self) {
        Outcome { result: copy_result(&self.result), trace: self.trace.clone(), steps: self.steps }
    }
}

/// How events are delivered and budgeted.
#[derive(Clone, Copy, Debug)]
pub struct ObservationOptions {
    /// False delivers events to the observer without retaining their values.
    pub retain_trace: bool,
    /// Sum of UTF-16 units in text values delivered as trace events, including
    /// repeated observations. Not a bound on total memory or encoded JSON bytes.
    pub max_trace_text_units: usize,
}

impl Default for ObservationOptions {
    fn default() -> (o: Self)
        ensures o.retain_trace, o.max_trace_text_units == usize::MAX,
    {
        ObservationOptions { retain_trace: true, max_trace_text_units: usize::MAX }
    }
}

/// Streaming metadata beside the outcome: an empty retained trace is no proof that
/// no operations were observed.
#[derive(Clone, Debug)]
pub struct ObservedOutcome {
    pub outcome: Outcome,
    pub options: ObservationOptions,
    pub emitted_events: usize,
    pub observed_text_units: usize,
}

/// What an event is.
pub struct StepModel {
    pub kind: &'static str,
    pub label: &'static str,
    pub span: Span,
    pub value: Option<ValueModel>,
}

pub open spec fn option_view(v: Option<Value>) -> Option<ValueModel> {
    match v { Some(x) => Some(x@), None => None }
}

pub open spec fn step_view(s: TraceStep) -> StepModel {
    StepModel { kind: s.kind, label: s.label, span: s.span, value: option_view(s.value) }
}

pub open spec fn trace_view(t: Seq<TraceStep>) -> Seq<StepModel> {
    t.map_values(|s: TraceStep| step_view(s))
}

/// UTF-16 units of the text value an event carries.
pub open spec fn step_units(s: StepModel) -> nat {
    match s.value { Some(ValueModel::Text(t)) => t.len(), _ => 0 }
}

/// UTF-16 units of all text values the events carry.
pub open spec fn trace_units(t: Seq<StepModel>) -> nat
    decreases t.len(),
{
    if t.len() == 0 { 0 } else { trace_units(t.drop_last()) + step_units(t.last()) }
}

/// A completed evaluation of a subtree: its value, the nodes it entered, the height of
/// the entered tree, and the events it emitted, in order.
pub struct Run {
    pub value: ValueModel,
    pub steps: nat,
    pub height: nat,
    pub trace: Seq<StepModel>,
}

pub open spec fn event(kind: &'static str, label: &'static str, span: Span, value: Option<ValueModel>) -> StepModel {
    StepModel { kind, label, span, value }
}

/// The value of a unary operator, or `None` when it leaves the integer domain.
pub open spec fn unary_value(op: Op, v: ValueModel) -> Option<ValueModel> {
    match (op, v) {
        (Op::Neg, ValueModel::Int(n)) => if in_domain(-n) { Some(ValueModel::Int((-n) as i64)) } else { None },
        (Op::Not, ValueModel::Bool(b)) => Some(ValueModel::Bool(!b)),
        _ => None,
    }
}

/// Whether the left operand alone decides `and` or `or`.
pub open spec fn short_circuits(op: Op, l: ValueModel) -> bool {
    (op == Op::And && l == ValueModel::Bool(false)) || (op == Op::Or && l == ValueModel::Bool(true))
}

pub open spec fn short_label(op: Op) -> &'static str {
    if op == Op::And { "and: right operand not evaluated" } else { "or: right operand not evaluated" }
}

/// The value of a binary operator on evaluated operands, or `None` when arithmetic
/// leaves the integer domain.
pub open spec fn binary_value(op: Op, l: ValueModel, r: ValueModel) -> Option<ValueModel> {
    match op {
        Op::Eq => Some(ValueModel::Bool(l == r)),
        Op::Ne => Some(ValueModel::Bool(l != r)),
        Op::And | Op::Or => match r { ValueModel::Bool(b) => Some(ValueModel::Bool(b)), _ => None },
        _ => match (l, r) {
            (ValueModel::Int(x), ValueModel::Int(y)) => match op {
                Op::Add => if in_domain(x + y) { Some(ValueModel::Int((x + y) as i64)) } else { None },
                Op::Sub => if in_domain(x - y) { Some(ValueModel::Int((x - y) as i64)) } else { None },
                Op::Mul => if in_domain(x * y) { Some(ValueModel::Int((x * y) as i64)) } else { None },
                Op::Lt => Some(ValueModel::Bool(x < y)),
                Op::Le => Some(ValueModel::Bool(x <= y)),
                Op::Gt => Some(ValueModel::Bool(x > y)),
                Op::Ge => Some(ValueModel::Bool(x >= y)),
                _ => None,
            },
            _ => None,
        },
    }
}

/// Whether comparing the integers `x` and `y` with `op` gives `true`.
pub open spec fn compares(op: Op, x: i64, y: i64) -> bool {
    binary_value(op, ValueModel::Int(x), ValueModel::Int(y)) == Some(ValueModel::Bool(true))
}

/// Law: integer comparison. Every comparison of two integers gives a boolean; `<` holds
/// exactly when the left integer is smaller; `>` is `<` with its operands swapped; `<=` and
/// `>=` are the negations of `>` and `<`; `==` holds exactly for equal integers and `!=`
/// for different ones. So `n > n` and `n < n` are false and `n >= n` and `n <= n` true.
pub proof fn lemma_integer_comparisons(x: i64, y: i64)
    ensures
        forall|op: Op| #![trigger binary_value(op, ValueModel::Int(x), ValueModel::Int(y))]
            (op == Op::Lt || op == Op::Le || op == Op::Gt || op == Op::Ge || op == Op::Eq || op == Op::Ne)
            ==> binary_value(op, ValueModel::Int(x), ValueModel::Int(y)) is Some
                && binary_value(op, ValueModel::Int(x), ValueModel::Int(y))->Some_0 is Bool,
        compares(Op::Lt, x, y) <==> x < y,
        compares(Op::Gt, x, y) <==> compares(Op::Lt, y, x),
        compares(Op::Le, x, y) <==> !compares(Op::Gt, x, y),
        compares(Op::Ge, x, y) <==> !compares(Op::Lt, x, y),
        compares(Op::Eq, x, y) <==> x == y,
        compares(Op::Ne, x, y) <==> x != y,
        !compares(Op::Gt, x, x), !compares(Op::Lt, x, x), compares(Op::Ge, x, x), compares(Op::Le, x, x),
{
}

/// Law: `==` and `!=` compare whole values. For any two values, `==` gives `true` exactly
/// when they are equal and `!=` exactly when they differ.
pub proof fn lemma_value_equality(l: ValueModel, r: ValueModel)
    ensures
        binary_value(Op::Eq, l, r) == Some(ValueModel::Bool(l == r)),
        binary_value(Op::Ne, l, r) == Some(ValueModel::Bool(l != r)),
{
}

/// Law: integer arithmetic. `+`, `-` and `*` give the sum, difference and product of two
/// integers when it lies in the language's integer domain, and nothing otherwise; `+` and
/// `*` do not depend on the order of their operands; `-` negates an integer of the domain
/// and `not` negates a boolean.
pub proof fn lemma_integer_arithmetic(x: i64, y: i64, b: bool)
    ensures
        binary_value(Op::Add, ValueModel::Int(x), ValueModel::Int(y))
            == (if in_domain(x + y) { Some(ValueModel::Int((x + y) as i64)) } else { None }),
        binary_value(Op::Sub, ValueModel::Int(x), ValueModel::Int(y))
            == (if in_domain(x - y) { Some(ValueModel::Int((x - y) as i64)) } else { None }),
        binary_value(Op::Mul, ValueModel::Int(x), ValueModel::Int(y))
            == (if in_domain(x * y) { Some(ValueModel::Int((x * y) as i64)) } else { None }),
        binary_value(Op::Add, ValueModel::Int(x), ValueModel::Int(y)) == binary_value(Op::Add, ValueModel::Int(y), ValueModel::Int(x)),
        binary_value(Op::Mul, ValueModel::Int(x), ValueModel::Int(y)) == binary_value(Op::Mul, ValueModel::Int(y), ValueModel::Int(x)),
        in_domain(x as int) ==> unary_value(Op::Neg, ValueModel::Int(x)) == Some(ValueModel::Int((-x) as i64)),
        unary_value(Op::Not, ValueModel::Bool(b)) == Some(ValueModel::Bool(!b)),
{
    assert(x * y == y * x) by (nonlinear_arith);
    if in_domain(x as int) {
        assert(in_domain(-x));
    }
}

/// Law: `and` and `or` are the boolean connectives. Where both operands of an `and` or
/// `or` node evaluate to booleans, the node evaluates to their conjunction or disjunction.
pub proof fn lemma_connectives(nodes: Seq<Node>, vals: Seq<ValueModel>, i: int, op: Op, l: usize, r: usize, p: bool, q: bool)
    requires
        0 <= i < nodes.len(), nodes[i].kind == NodeKind::Binary(op, l, r), op == Op::And || op == Op::Or, l < i, r < i,
        run(nodes, vals, l as int) is Some, run(nodes, vals, l as int)->Some_0.value == ValueModel::Bool(p),
        run(nodes, vals, r as int) is Some, run(nodes, vals, r as int)->Some_0.value == ValueModel::Bool(q),
    ensures
        run(nodes, vals, i) is Some,
        run(nodes, vals, i)->Some_0.value == ValueModel::Bool(if op == Op::And { p && q } else { p || q }),
{
}

/// Law: `if` selects its branch. Where the condition of an `if` node evaluates to a boolean
/// and the branch it selects completes, the node has that branch's value.
pub proof fn lemma_if_selects(nodes: Seq<Node>, vals: Seq<ValueModel>, i: int, c: usize, t: usize, f: usize, p: bool)
    requires
        0 <= i < nodes.len(), nodes[i].kind == NodeKind::If(c, t, f), c < i, t < i, f < i,
        run(nodes, vals, c as int) is Some, run(nodes, vals, c as int)->Some_0.value == ValueModel::Bool(p),
        run(nodes, vals, (if p { t } else { f }) as int) is Some,
    ensures
        run(nodes, vals, i) is Some,
        run(nodes, vals, i)->Some_0.value == run(nodes, vals, (if p { t } else { f }) as int)->Some_0.value,
{
}

/// Input values that agree wherever the declared inputs of two programs share an ID.
pub open spec fn values_agree(ai: Seq<InputSpec>, va: Seq<ValueModel>, bi: Seq<InputSpec>, vb: Seq<ValueModel>) -> bool {
    &&& va.len() == ai.len() && vb.len() == bi.len()
    &&& forall|x: int, y: int| 0 <= x < ai.len() && 0 <= y < bi.len() && (#[trigger] ai[x]).id@ == (#[trigger] bi[y]).id@
        ==> va[x] == vb[y]
}

/// Nodes with the same bound syntax evaluate alike on input values that agree by ID: both
/// complete, with the same value, steps and height, or neither does.
#[verifier::rlimit(40)]
pub proof fn lemma_same_tree_runs_alike(a: Seq<Node>, ai: Seq<InputSpec>, va: Seq<ValueModel>, i: int,
    b: Seq<Node>, bi: Seq<InputSpec>, vb: Seq<ValueModel>, j: int)
    requires same_tree(a, ai, i, b, bi, j), values_agree(ai, va, bi, vb),
    ensures
        run(a, va, i) is Some <==> run(b, vb, j) is Some,
        run(a, va, i) is Some ==> run(a, va, i)->Some_0.value == run(b, vb, j)->Some_0.value
            && run(a, va, i)->Some_0.steps == run(b, vb, j)->Some_0.steps
            && run(a, va, i)->Some_0.height == run(b, vb, j)->Some_0.height,
    decreases i,
{
    match (a[i].kind, b[j].kind) {
        (NodeKind::Input(x), NodeKind::Input(y)) => {
            assert(ai[x as int].id@ == bi[y as int].id@);
        }
        (NodeKind::Unary(_, x), NodeKind::Unary(_, y)) => {
            lemma_same_tree_runs_alike(a, ai, va, x as int, b, bi, vb, y as int);
        }
        (NodeKind::Binary(_, l, r), NodeKind::Binary(_, x, y)) => {
            lemma_same_tree_runs_alike(a, ai, va, l as int, b, bi, vb, x as int);
            lemma_same_tree_runs_alike(a, ai, va, r as int, b, bi, vb, y as int);
        }
        (NodeKind::If(c, t, f), NodeKind::If(d, u, v)) => {
            lemma_same_tree_runs_alike(a, ai, va, c as int, b, bi, vb, d as int);
            lemma_same_tree_runs_alike(a, ai, va, t as int, b, bi, vb, u as int);
            lemma_same_tree_runs_alike(a, ai, va, f as int, b, bi, vb, v as int);
        }
        _ => {}
    }
}

/// Law: programs with the same logic compute the same thing. On any bindings, two
/// programs that `same_logic` relates either both complete, with the same value and the
/// same number of steps, or both leave the integer domain.
pub proof fn lemma_same_logic_same_value(p: CompiledExpression, q: CompiledExpression, bindings: InputBindings)
    requires same_logic_spec(p, q),
    ensures
        program_run(p, program_values(p.spec_inputs(), bindings)) is Some
            <==> program_run(q, program_values(q.spec_inputs(), bindings)) is Some,
        program_run(p, program_values(p.spec_inputs(), bindings)) is Some ==>
            program_run(p, program_values(p.spec_inputs(), bindings))->Some_0.value
                == program_run(q, program_values(q.spec_inputs(), bindings))->Some_0.value
            && program_run(p, program_values(p.spec_inputs(), bindings))->Some_0.steps
                == program_run(q, program_values(q.spec_inputs(), bindings))->Some_0.steps,
{
    let va = program_values(p.spec_inputs(), bindings);
    let vb = program_values(q.spec_inputs(), bindings);
    assert(values_agree(p.spec_inputs(), va, q.spec_inputs(), vb));
    lemma_same_tree_runs_alike(p.spec_nodes(), p.spec_inputs(), va, p.spec_root(), q.spec_nodes(), q.spec_inputs(), vb, q.spec_root());
}

/// The evaluation of node `i` with input values `vals`, or `None` when it leaves the
/// integer domain. Operands are evaluated left to right; `and`/`or` skip the right
/// operand when the left decides; `if` evaluates only the selected branch. Each node
/// emits its event after those of its operands.
pub open spec fn run(nodes: Seq<Node>, vals: Seq<ValueModel>, i: int) -> Option<Run>
    decreases i,
{
    if !(0 <= i < nodes.len()) {
        None
    } else {
        let n = nodes[i];
        match n.kind {
            NodeKind::Input(k) => if k < vals.len() {
                Some(Run { value: vals[k as int], steps: 1, height: 1,
                    trace: seq![event("input", "input", n.span, Some(vals[k as int]))] })
            } else { None },
            NodeKind::Literal(v) => Some(Run { value: v@, steps: 1, height: 1,
                trace: seq![event("literal", "literal", n.span, Some(v@))] }),
            NodeKind::Unary(op, c) => if c >= i { None } else {
                match run(nodes, vals, c as int) {
                    None => None,
                    Some(x) => match unary_value(op, x.value) {
                        None => None,
                        Some(v) => Some(Run { value: v, steps: x.steps + 1, height: x.height + 1,
                            trace: x.trace.push(event("unary", op.spec_label(), n.span, Some(v))) }),
                    },
                }
            },
            NodeKind::Binary(op, l, r) => if l >= i || r >= i { None } else {
                match run(nodes, vals, l as int) {
                    None => None,
                    Some(x) => if short_circuits(op, x.value) {
                        Some(Run { value: x.value, steps: x.steps + 1, height: x.height + 1,
                            trace: x.trace.push(event("short-circuit", short_label(op), n.span, None))
                                .push(event("binary", op.spec_label(), n.span, Some(x.value))) })
                    } else {
                        match run(nodes, vals, r as int) {
                            None => None,
                            Some(y) => match binary_value(op, x.value, y.value) {
                                None => None,
                                Some(v) => Some(Run { value: v, steps: x.steps + y.steps + 1,
                                    height: (max2(x.height as int, y.height as int) + 1) as nat,
                                    trace: (x.trace + y.trace).push(event("binary", op.spec_label(), n.span, Some(v))) }),
                            },
                        }
                    },
                }
            },
            NodeKind::If(c, t, f) => if c >= i || t >= i || f >= i { None } else {
                match run(nodes, vals, c as int) {
                    None => None,
                    Some(x) => match x.value {
                        ValueModel::Bool(b) => {
                            let j = if b { t } else { f };
                            match run(nodes, vals, j as int) {
                                None => None,
                                Some(y) => Some(Run { value: y.value, steps: x.steps + y.steps + 1,
                                    height: (max2(x.height as int, y.height as int) + 1) as nat,
                                    trace: (x.trace.push(event("branch",
                                        if b { "then branch selected" } else { "else branch selected" },
                                        n.span, Some(ValueModel::Bool(b)))) + y.trace)
                                        .push(event("if", "if", n.span, Some(y.value))) }),
                            }
                        },
                        _ => None,
                    },
                }
            },
        }
    }
}

/// Whether a completed evaluation stays within the run's budgets.
pub open spec fn fits(x: Run, l: Limits, o: ObservationOptions) -> bool {
    &&& x.steps <= l.max_steps
    &&& x.height <= l.max_depth
    &&& x.trace.len() <= l.max_trace
    &&& trace_units(x.trace) <= o.max_trace_text_units
}

/// What a run has used of its budgets so far: steps taken, events emitted, and text units
/// those events carried.
pub struct Counters { pub steps: nat, pub emitted: nat, pub units: nat }

/// The counters after a completed evaluation.
pub open spec fn after(c: Counters, x: Run) -> Counters {
    Counters { steps: c.steps + x.steps, emitted: c.emitted + x.trace.len(), units: c.units + trace_units(x.trace) }
}

/// The counters after one more event.
pub open spec fn bump(c: Counters, e: StepModel) -> Counters {
    Counters { steps: c.steps, emitted: c.emitted + 1, units: c.units + step_units(e) }
}

/// Why emitting event `e` stops a run, if it does: the event budget is spent, or the
/// event's text would exceed the text budget.
pub open spec fn emit_stop(l: Limits, text: nat, c: Counters, e: StepModel) -> Option<(&'static str, Span)> {
    if c.emitted >= l.max_trace {
        Some(("TRACE_LIMIT", e.span))
    } else if c.units + step_units(e) > text {
        Some(("TRACE_VALUE_LIMIT", e.span))
    } else {
        None
    }
}

/// Why emitting `e1` and then `e2` stops a run, if it does.
pub open spec fn emit_two_stop(l: Limits, text: nat, c: Counters, e1: StepModel, e2: StepModel) -> Option<(&'static str, Span)> {
    match emit_stop(l, text, c, e1) {
        Some(s) => Some(s),
        None => emit_stop(l, text, bump(c, e1), e2),
    }
}

/// Why the evaluation of node `i` at call depth `depth`, from counters `c`, stops short,
/// if it does, with the code and the span of the node or event where it stops: entering
/// a node takes a step and checks the step budget, then the depth budget; each event
/// checks the event budget, then the text budget; arithmetic that leaves the integer
/// domain stops at its node. Operands are evaluated as `run` evaluates them.
pub open spec fn stop(nodes: Seq<Node>, vals: Seq<ValueModel>, l: Limits, text: nat, i: int, depth: int, c: Counters)
    -> Option<(&'static str, Span)>
    decreases i,
{
    if !(0 <= i < nodes.len()) {
        Some(("INTEGER_RANGE", Span { start: 0, end: 0, line: 1, column: 1 }))
    } else {
        let n = nodes[i];
        let span = n.span;
        let c1 = Counters { steps: c.steps + 1, emitted: c.emitted, units: c.units };
        if c1.steps > l.max_steps {
            Some(("STEP_LIMIT", span))
        } else if depth > l.max_depth {
            Some(("DEPTH_LIMIT", span))
        } else {
            match n.kind {
                NodeKind::Input(k) => if k < vals.len() {
                    emit_stop(l, text, c1, event("input", "input", span, Some(vals[k as int])))
                } else {
                    Some(("INTEGER_RANGE", span))
                },
                NodeKind::Literal(v) => emit_stop(l, text, c1, event("literal", "literal", span, Some(v@))),
                NodeKind::Unary(op, ch) => if ch >= i { Some(("INTEGER_RANGE", span)) } else {
                    match stop(nodes, vals, l, text, ch as int, depth + 1, c1) {
                        Some(s) => Some(s),
                        None => match run(nodes, vals, ch as int) {
                            None => Some(("INTEGER_RANGE", span)),
                            Some(x) => match unary_value(op, x.value) {
                                None => Some(("INTEGER_RANGE", span)),
                                Some(v) => emit_stop(l, text, after(c1, x), event("unary", op.spec_label(), span, Some(v))),
                            },
                        },
                    }
                },
                NodeKind::Binary(op, lt, rt) => if lt >= i || rt >= i { Some(("INTEGER_RANGE", span)) } else {
                    match stop(nodes, vals, l, text, lt as int, depth + 1, c1) {
                        Some(s) => Some(s),
                        None => match run(nodes, vals, lt as int) {
                            None => Some(("INTEGER_RANGE", span)),
                            Some(x) => if short_circuits(op, x.value) {
                                emit_two_stop(l, text, after(c1, x), event("short-circuit", short_label(op), span, None),
                                    event("binary", op.spec_label(), span, Some(x.value)))
                            } else {
                                match stop(nodes, vals, l, text, rt as int, depth + 1, after(c1, x)) {
                                    Some(s) => Some(s),
                                    None => match run(nodes, vals, rt as int) {
                                        None => Some(("INTEGER_RANGE", span)),
                                        Some(y) => match binary_value(op, x.value, y.value) {
                                            None => Some(("INTEGER_RANGE", span)),
                                            Some(v) => emit_stop(l, text, after(after(c1, x), y), event("binary", op.spec_label(), span, Some(v))),
                                        },
                                    },
                                }
                            },
                        },
                    }
                },
                NodeKind::If(ct, yt, nt) => if ct >= i || yt >= i || nt >= i { Some(("INTEGER_RANGE", span)) } else {
                    match stop(nodes, vals, l, text, ct as int, depth + 1, c1) {
                        Some(s) => Some(s),
                        None => match run(nodes, vals, ct as int) {
                            None => Some(("INTEGER_RANGE", span)),
                            Some(x) => match x.value {
                                ValueModel::Bool(b) => {
                                    let e1 = event("branch", if b { "then branch selected" } else { "else branch selected" },
                                        span, Some(ValueModel::Bool(b)));
                                    let j = if b { yt } else { nt };
                                    match emit_stop(l, text, after(c1, x), e1) {
                                        Some(s) => Some(s),
                                        None => match stop(nodes, vals, l, text, j as int, depth + 1, bump(after(c1, x), e1)) {
                                            Some(s) => Some(s),
                                            None => match run(nodes, vals, j as int) {
                                                None => Some(("INTEGER_RANGE", span)),
                                                Some(y) => emit_stop(l, text, after(bump(after(c1, x), e1), y),
                                                    event("if", "if", span, Some(y.value))),
                                            },
                                        },
                                    }
                                },
                                _ => Some(("INTEGER_RANGE", span)),
                            },
                        },
                    }
                },
            }
        }
    }
}

/// The events that emitting `e` from counters `c` adds: `e`, unless it stops the run.
pub open spec fn emit_trail(l: Limits, text: nat, c: Counters, e: StepModel) -> Seq<StepModel> {
    if emit_stop(l, text, c, e) is Some { Seq::empty() } else { seq![e] }
}

/// The events that emitting `e1` and then `e2` adds.
pub open spec fn emit_two_trail(l: Limits, text: nat, c: Counters, e1: StepModel, e2: StepModel) -> Seq<StepModel> {
    if emit_stop(l, text, c, e1) is Some { Seq::empty() } else { seq![e1] + emit_trail(l, text, bump(c, e1), e2) }
}

/// What the evaluation of node `i` at depth `depth` from counters `c` uses up to its end
/// or its stop: the steps it takes (a step that exceeds a budget counts) and the events it
/// emits, in order.
#[verifier::opaque]
pub open spec fn used(nodes: Seq<Node>, vals: Seq<ValueModel>, l: Limits, text: nat, i: int, depth: int, c: Counters)
    -> (nat, Seq<StepModel>)
    decreases i,
{
    if !(0 <= i < nodes.len()) {
        (0, Seq::empty())
    } else {
        let n = nodes[i];
        let span = n.span;
        let c1 = Counters { steps: c.steps + 1, emitted: c.emitted, units: c.units };
        if c1.steps > l.max_steps || depth > l.max_depth {
            (1, Seq::empty())
        } else {
            match n.kind {
                NodeKind::Input(k) => if k < vals.len() {
                    (1, emit_trail(l, text, c1, event("input", "input", span, Some(vals[k as int]))))
                } else {
                    (1, Seq::empty())
                },
                NodeKind::Literal(v) => (1, emit_trail(l, text, c1, event("literal", "literal", span, Some(v@)))),
                NodeKind::Unary(op, ch) => if ch >= i { (1, Seq::empty()) } else {
                    match stop(nodes, vals, l, text, ch as int, depth + 1, c1) {
                        Some(_) => {
                            let u = used(nodes, vals, l, text, ch as int, depth + 1, c1);
                            (1 + u.0, u.1)
                        }
                        None => match run(nodes, vals, ch as int) {
                            None => (1, Seq::empty()),
                            Some(x) => match unary_value(op, x.value) {
                                None => (1 + x.steps, x.trace),
                                Some(v) => (1 + x.steps, x.trace + emit_trail(l, text, after(c1, x), event("unary", op.spec_label(), span, Some(v)))),
                            },
                        },
                    }
                },
                NodeKind::Binary(op, lt, rt) => if lt >= i || rt >= i { (1, Seq::empty()) } else {
                    match stop(nodes, vals, l, text, lt as int, depth + 1, c1) {
                        Some(_) => {
                            let u = used(nodes, vals, l, text, lt as int, depth + 1, c1);
                            (1 + u.0, u.1)
                        }
                        None => match run(nodes, vals, lt as int) {
                            None => (1, Seq::empty()),
                            Some(x) => if short_circuits(op, x.value) {
                                (1 + x.steps, x.trace + emit_two_trail(l, text, after(c1, x), event("short-circuit", short_label(op), span, None),
                                    event("binary", op.spec_label(), span, Some(x.value))))
                            } else {
                                match stop(nodes, vals, l, text, rt as int, depth + 1, after(c1, x)) {
                                    Some(_) => {
                                        let u = used(nodes, vals, l, text, rt as int, depth + 1, after(c1, x));
                                        (1 + x.steps + u.0, x.trace + u.1)
                                    }
                                    None => match run(nodes, vals, rt as int) {
                                        None => (1 + x.steps, x.trace),
                                        Some(y) => match binary_value(op, x.value, y.value) {
                                            None => (1 + x.steps + y.steps, x.trace + y.trace),
                                            Some(v) => (1 + x.steps + y.steps, x.trace + y.trace
                                                + emit_trail(l, text, after(after(c1, x), y), event("binary", op.spec_label(), span, Some(v)))),
                                        },
                                    },
                                }
                            },
                        },
                    }
                },
                NodeKind::If(ct, yt, nt) => if ct >= i || yt >= i || nt >= i { (1, Seq::empty()) } else {
                    match stop(nodes, vals, l, text, ct as int, depth + 1, c1) {
                        Some(_) => {
                            let u = used(nodes, vals, l, text, ct as int, depth + 1, c1);
                            (1 + u.0, u.1)
                        }
                        None => match run(nodes, vals, ct as int) {
                            None => (1, Seq::empty()),
                            Some(x) => match x.value {
                                ValueModel::Bool(b) => {
                                    let e1 = event("branch", if b { "then branch selected" } else { "else branch selected" },
                                        span, Some(ValueModel::Bool(b)));
                                    let j = if b { yt } else { nt };
                                    if emit_stop(l, text, after(c1, x), e1) is Some {
                                        (1 + x.steps, x.trace)
                                    } else {
                                        match stop(nodes, vals, l, text, j as int, depth + 1, bump(after(c1, x), e1)) {
                                            Some(_) => {
                                                let u = used(nodes, vals, l, text, j as int, depth + 1, bump(after(c1, x), e1));
                                                (1 + x.steps + u.0, x.trace.push(e1) + u.1)
                                            }
                                            None => match run(nodes, vals, j as int) {
                                                None => (1 + x.steps, x.trace.push(e1)),
                                                Some(y) => (1 + x.steps + y.steps, x.trace.push(e1) + y.trace
                                                    + emit_trail(l, text, after(bump(after(c1, x), e1), y), event("if", "if", span, Some(y.value)))),
                                            },
                                        }
                                    }
                                },
                                _ => (1 + x.steps, x.trace),
                            },
                        },
                    }
                },
            }
        }
    }
}

/// The counters once a node is entered: one more step.
pub open spec fn entry(c: Counters) -> Counters {
    Counters { steps: c.steps + 1, emitted: c.emitted, units: c.units }
}

/// Whether node `i` can be entered from counters `c` at depth `depth` within budget.
pub open spec fn enters(nodes: Seq<Node>, l: Limits, i: int, depth: int, c: Counters) -> bool {
    &&& 0 <= i < nodes.len()
    &&& c.steps + 1 <= l.max_steps
    &&& depth <= l.max_depth
}

#[verifier::rlimit(40)]
proof fn lemma_used_entry(nodes: Seq<Node>, vals: Seq<ValueModel>, l: Limits, text: nat, i: int, depth: int, c: Counters)
    requires 0 <= i < nodes.len(), c.steps + 1 > l.max_steps || depth > l.max_depth,
    ensures used(nodes, vals, l, text, i, depth, c) == (1nat, Seq::<StepModel>::empty()),
{
    reveal(used);
}

#[verifier::rlimit(40)]
proof fn lemma_used_leaf(nodes: Seq<Node>, vals: Seq<ValueModel>, l: Limits, text: nat, i: int, depth: int, c: Counters,
    e: StepModel)
    requires
        enters(nodes, l, i, depth, c),
        (nodes[i].kind matches NodeKind::Input(k) && k < vals.len() && e == event("input", "input", nodes[i].span, Some(vals[k as int])))
        || (nodes[i].kind matches NodeKind::Literal(v) && e == event("literal", "literal", nodes[i].span, Some(v@))),
    ensures used(nodes, vals, l, text, i, depth, c) == (1nat, emit_trail(l, text, entry(c), e)),
{
    reveal(used);
}

/// A node whose first operand `f` stops uses one step more than the operand.
#[verifier::rlimit(40)]
proof fn lemma_used_first_stops(nodes: Seq<Node>, vals: Seq<ValueModel>, l: Limits, text: nat, i: int, depth: int,
    c: Counters, f: usize)
    requires
        enters(nodes, l, i, depth, c),
        f < i,
        match nodes[i].kind {
            NodeKind::Unary(_, ch) => ch == f,
            NodeKind::Binary(_, lt, rt) => lt == f && rt < i,
            NodeKind::If(ct, yt, nt) => ct == f && yt < i && nt < i,
            _ => false,
        },
        stop(nodes, vals, l, text, f as int, depth + 1, entry(c)) is Some,
    ensures
        used(nodes, vals, l, text, i, depth, c) == (1 + used(nodes, vals, l, text, f as int, depth + 1, entry(c)).0,
            used(nodes, vals, l, text, f as int, depth + 1, entry(c)).1),
{
    reveal(used);
}

#[verifier::rlimit(40)]
proof fn lemma_used_unary(nodes: Seq<Node>, vals: Seq<ValueModel>, l: Limits, text: nat, i: int, depth: int,
    c: Counters, op: Op, ch: usize, x: Run)
    requires
        enters(nodes, l, i, depth, c),
        nodes[i].kind == NodeKind::Unary(op, ch), ch < i,
        stop(nodes, vals, l, text, ch as int, depth + 1, entry(c)) is None,
        run(nodes, vals, ch as int) == Some(x),
    ensures
        used(nodes, vals, l, text, i, depth, c) == match unary_value(op, x.value) {
            None => (1 + x.steps, x.trace),
            Some(v) => (1 + x.steps, x.trace + emit_trail(l, text, after(entry(c), x),
                event("unary", op.spec_label(), nodes[i].span, Some(v)))),
        },
{
    reveal(used);
}

#[verifier::rlimit(40)]
proof fn lemma_used_short(nodes: Seq<Node>, vals: Seq<ValueModel>, l: Limits, text: nat, i: int, depth: int,
    c: Counters, op: Op, lt: usize, rt: usize, x: Run)
    requires
        enters(nodes, l, i, depth, c),
        nodes[i].kind == NodeKind::Binary(op, lt, rt), lt < i, rt < i,
        stop(nodes, vals, l, text, lt as int, depth + 1, entry(c)) is None,
        run(nodes, vals, lt as int) == Some(x),
        short_circuits(op, x.value),
    ensures
        used(nodes, vals, l, text, i, depth, c) == (1 + x.steps, x.trace + emit_two_trail(l, text, after(entry(c), x),
            event("short-circuit", short_label(op), nodes[i].span, None),
            event("binary", op.spec_label(), nodes[i].span, Some(x.value)))),
{
    reveal(used);
}

#[verifier::rlimit(40)]
proof fn lemma_used_right_stops(nodes: Seq<Node>, vals: Seq<ValueModel>, l: Limits, text: nat, i: int, depth: int,
    c: Counters, op: Op, lt: usize, rt: usize, x: Run)
    requires
        enters(nodes, l, i, depth, c),
        nodes[i].kind == NodeKind::Binary(op, lt, rt), lt < i, rt < i,
        stop(nodes, vals, l, text, lt as int, depth + 1, entry(c)) is None,
        run(nodes, vals, lt as int) == Some(x),
        !short_circuits(op, x.value),
        stop(nodes, vals, l, text, rt as int, depth + 1, after(entry(c), x)) is Some,
    ensures
        used(nodes, vals, l, text, i, depth, c) == (
            1 + x.steps + used(nodes, vals, l, text, rt as int, depth + 1, after(entry(c), x)).0,
            x.trace + used(nodes, vals, l, text, rt as int, depth + 1, after(entry(c), x)).1),
{
    reveal(used);
}

#[verifier::rlimit(40)]
proof fn lemma_used_binary(nodes: Seq<Node>, vals: Seq<ValueModel>, l: Limits, text: nat, i: int, depth: int,
    c: Counters, op: Op, lt: usize, rt: usize, x: Run, y: Run)
    requires
        enters(nodes, l, i, depth, c),
        nodes[i].kind == NodeKind::Binary(op, lt, rt), lt < i, rt < i,
        stop(nodes, vals, l, text, lt as int, depth + 1, entry(c)) is None,
        run(nodes, vals, lt as int) == Some(x),
        !short_circuits(op, x.value),
        stop(nodes, vals, l, text, rt as int, depth + 1, after(entry(c), x)) is None,
        run(nodes, vals, rt as int) == Some(y),
    ensures
        used(nodes, vals, l, text, i, depth, c) == match binary_value(op, x.value, y.value) {
            None => (1 + x.steps + y.steps, x.trace + y.trace),
            Some(v) => (1 + x.steps + y.steps, x.trace + y.trace + emit_trail(l, text, after(after(entry(c), x), y),
                event("binary", op.spec_label(), nodes[i].span, Some(v)))),
        },
{
    reveal(used);
}

#[verifier::rlimit(40)]
proof fn lemma_used_if(nodes: Seq<Node>, vals: Seq<ValueModel>, l: Limits, text: nat, i: int, depth: int,
    c: Counters, ct: usize, yt: usize, nt: usize, x: Run, b: bool)
    requires
        enters(nodes, l, i, depth, c),
        nodes[i].kind == NodeKind::If(ct, yt, nt), ct < i, yt < i, nt < i,
        stop(nodes, vals, l, text, ct as int, depth + 1, entry(c)) is None,
        run(nodes, vals, ct as int) == Some(x),
        x.value == ValueModel::Bool(b),
    ensures ({
        let e1 = event("branch", if b { "then branch selected" } else { "else branch selected" }, nodes[i].span,
            Some(ValueModel::Bool(b)));
        let j = (if b { yt } else { nt }) as int;
        let c2 = after(entry(c), x);
        let u = used(nodes, vals, l, text, j, depth + 1, bump(c2, e1));
        &&& emit_stop(l, text, c2, e1) is Some ==> used(nodes, vals, l, text, i, depth, c) == (1 + x.steps, x.trace)
        &&& emit_stop(l, text, c2, e1) is None && stop(nodes, vals, l, text, j, depth + 1, bump(c2, e1)) is Some
            ==> used(nodes, vals, l, text, i, depth, c) == (1 + x.steps + u.0, x.trace.push(e1) + u.1)
        &&& emit_stop(l, text, c2, e1) is None && stop(nodes, vals, l, text, j, depth + 1, bump(c2, e1)) is None
            ==> (run(nodes, vals, j) matches Some(y) ==> used(nodes, vals, l, text, i, depth, c)
                == (1 + x.steps + y.steps, x.trace.push(e1) + y.trace + emit_trail(l, text, after(bump(c2, e1), y),
                    event("if", "if", nodes[i].span, Some(y.value)))))
    }),
{
    reveal(used);
}

/// Whether `p` is a prefix of `t`.
pub open spec fn prefix_of(p: Seq<StepModel>, t: Seq<StepModel>) -> bool {
    p.len() <= t.len() && t.subrange(0, p.len() as int) == p
}

pub proof fn lemma_prefix_append(a: Seq<StepModel>, p: Seq<StepModel>, t: Seq<StepModel>, b: Seq<StepModel>)
    requires prefix_of(p, t),
    ensures prefix_of(a + p, a + t + b), prefix_of(a + p, a + (t + b)),
{
    assert((a + t + b).subrange(0, (a + p).len() as int) =~= a + p);
    assert(a + t + b =~= a + (t + b));
}

/// `e` is `e0` followed by a prefix of `t`.
pub open spec fn cut_of(e0: Seq<StepModel>, e: Seq<StepModel>, t: Seq<StepModel>) -> bool {
    exists|p: Seq<StepModel>| #[trigger] prefix_of(p, t) && e == e0 + p
}

pub proof fn lemma_cut_whole(e0: Seq<StepModel>, p: Seq<StepModel>, t: Seq<StepModel>)
    requires prefix_of(p, t),
    ensures cut_of(e0, e0 + p, t),
{
}

pub proof fn lemma_cut_none(e0: Seq<StepModel>, t: Seq<StepModel>)
    ensures cut_of(e0, e0, t),
{
    lemma_prefix_self(t, Seq::empty());
    assert(e0 + Seq::<StepModel>::empty() =~= e0);
    assert(prefix_of(Seq::<StepModel>::empty(), t));
}

/// A cut after `a` of what comes next is a cut of anything that begins with `a` and it.
pub proof fn lemma_cut_shift(e0: Seq<StepModel>, a: Seq<StepModel>, e: Seq<StepModel>, tc: Seq<StepModel>, t: Seq<StepModel>)
    requires cut_of(e0 + a, e, tc), prefix_of(a + tc, t),
    ensures cut_of(e0, e, t),
{
    let pc = choose|p: Seq<StepModel>| #[trigger] prefix_of(p, tc) && e == e0 + a + p;
    lemma_prefix_append(a, pc, tc, Seq::empty());
    assert(a + tc + Seq::<StepModel>::empty() =~= a + tc);
    lemma_prefix_trans(a + pc, a + tc, t);
    assert(e =~= e0 + (a + pc));
    lemma_cut_whole(e0, a + pc, t);
}

pub proof fn lemma_cut_mono(e0: Seq<StepModel>, e: Seq<StepModel>, tc: Seq<StepModel>, t: Seq<StepModel>)
    requires cut_of(e0, e, tc), prefix_of(tc, t),
    ensures cut_of(e0, e, t),
{
    let pc = choose|p: Seq<StepModel>| #[trigger] prefix_of(p, tc) && e == e0 + p;
    lemma_prefix_trans(pc, tc, t);
}

/// `e0` followed by `a`, or by `a` and then `x` when `x` is allowed, cuts anything that
/// begins with `a` and then, where `x` is allowed, with `x`.
pub proof fn lemma_cut_either(e0: Seq<StepModel>, e: Seq<StepModel>, a: Seq<StepModel>, x: StepModel, pushed: bool,
    t: Seq<StepModel>)
    requires
        prefix_of(a, t),
        pushed ==> prefix_of(a.push(x), t),
        e == (if pushed { e0 + a.push(x) } else { e0 + a }),
    ensures cut_of(e0, e, t),
{
    if pushed { lemma_cut_whole(e0, a.push(x), t); } else { lemma_cut_whole(e0, a, t); }
}

pub proof fn lemma_prefix_trans(a: Seq<StepModel>, b: Seq<StepModel>, t: Seq<StepModel>)
    requires prefix_of(a, b), prefix_of(b, t),
    ensures prefix_of(a, t),
{
    assert(t.subrange(0, a.len() as int) =~= b.subrange(0, a.len() as int));
}

pub proof fn lemma_prefix_self(a: Seq<StepModel>, b: Seq<StepModel>)
    ensures prefix_of(a, a + b), prefix_of(a, a), prefix_of(Seq::<StepModel>::empty(), a),
{
    assert((a + b).subrange(0, a.len() as int) =~= a);
    assert(a.subrange(0, a.len() as int) =~= a);
    assert(a.subrange(0, 0) =~= Seq::<StepModel>::empty());
}

/// What the first operand `f` of node `i` delivers begins what node `i` delivers.
#[verifier::rlimit(40)]
proof fn lemma_used_first_prefix(nodes: Seq<Node>, vals: Seq<ValueModel>, l: Limits, text: nat, i: int, depth: int,
    c: Counters, f: usize)
    requires
        enters(nodes, l, i, depth, c),
        f < i,
        match nodes[i].kind {
            NodeKind::Unary(_, ch) => ch == f,
            NodeKind::Binary(_, lt, rt) => lt == f && rt < i,
            NodeKind::If(ct, yt, nt) => ct == f && yt < i && nt < i,
            _ => false,
        },
    ensures
        prefix_of(used(nodes, vals, l, text, f as int, depth + 1, entry(c)).1, used(nodes, vals, l, text, i, depth, c).1),
{
    let uf = used(nodes, vals, l, text, f as int, depth + 1, entry(c)).1;
    if stop(nodes, vals, l, text, f as int, depth + 1, entry(c)) is Some {
        lemma_used_first_stops(nodes, vals, l, text, i, depth, c, f);
        lemma_prefix_self(uf, Seq::empty());
    } else {
        lemma_used_complete(nodes, vals, l, text, f as int, depth + 1, entry(c));
        let x = run(nodes, vals, f as int).unwrap();
        match nodes[i].kind {
            NodeKind::Unary(op, ch) => { lemma_first_prefix_unary(nodes, vals, l, text, i, depth, c, op, ch, x); }
            NodeKind::Binary(op, lt, rt) => { lemma_first_prefix_binary(nodes, vals, l, text, i, depth, c, op, lt, rt, x); }
            NodeKind::If(ct, yt, nt) => { lemma_first_prefix_if(nodes, vals, l, text, i, depth, c, ct, yt, nt, x); }
            _ => {}
        }
    }
}

#[verifier::rlimit(40)]
proof fn lemma_first_prefix_unary(nodes: Seq<Node>, vals: Seq<ValueModel>, l: Limits, text: nat, i: int, depth: int,
    c: Counters, op: Op, ch: usize, x: Run)
    requires
        enters(nodes, l, i, depth, c),
        nodes[i].kind == NodeKind::Unary(op, ch), ch < i,
        stop(nodes, vals, l, text, ch as int, depth + 1, entry(c)) is None,
        run(nodes, vals, ch as int) == Some(x),
    ensures prefix_of(x.trace, used(nodes, vals, l, text, i, depth, c).1),
{
    lemma_used_unary(nodes, vals, l, text, i, depth, c, op, ch, x);
    match unary_value(op, x.value) {
        Some(v) => {
            lemma_prefix_self(x.trace, emit_trail(l, text, after(entry(c), x),
                event("unary", op.spec_label(), nodes[i].span, Some(v))));
        }
        None => { lemma_prefix_self(x.trace, Seq::empty()); }
    }
}

#[verifier::rlimit(40)]
proof fn lemma_first_prefix_binary(nodes: Seq<Node>, vals: Seq<ValueModel>, l: Limits, text: nat, i: int, depth: int,
    c: Counters, op: Op, lt: usize, rt: usize, x: Run)
    requires
        enters(nodes, l, i, depth, c),
        nodes[i].kind == NodeKind::Binary(op, lt, rt), lt < i, rt < i,
        stop(nodes, vals, l, text, lt as int, depth + 1, entry(c)) is None,
        run(nodes, vals, lt as int) == Some(x),
    ensures prefix_of(x.trace, used(nodes, vals, l, text, i, depth, c).1),
{
    if short_circuits(op, x.value) {
        lemma_used_short(nodes, vals, l, text, i, depth, c, op, lt, rt, x);
        lemma_prefix_self(x.trace, emit_two_trail(l, text, after(entry(c), x),
            event("short-circuit", short_label(op), nodes[i].span, None),
            event("binary", op.spec_label(), nodes[i].span, Some(x.value))));
    } else if stop(nodes, vals, l, text, rt as int, depth + 1, after(entry(c), x)) is Some {
        lemma_used_right_stops(nodes, vals, l, text, i, depth, c, op, lt, rt, x);
        lemma_prefix_self(x.trace, used(nodes, vals, l, text, rt as int, depth + 1, after(entry(c), x)).1);
    } else {
        lemma_used_complete(nodes, vals, l, text, rt as int, depth + 1, after(entry(c), x));
        let y = run(nodes, vals, rt as int).unwrap();
        lemma_used_binary(nodes, vals, l, text, i, depth, c, op, lt, rt, x, y);
        match binary_value(op, x.value, y.value) {
            Some(v) => {
                let e = emit_trail(l, text, after(after(entry(c), x), y), event("binary", op.spec_label(), nodes[i].span, Some(v)));
                lemma_prefix_self(x.trace, y.trace + e);
                assert(x.trace + y.trace + e =~= x.trace + (y.trace + e));
            }
            None => { lemma_prefix_self(x.trace, y.trace); }
        }
    }
}

#[verifier::rlimit(40)]
proof fn lemma_first_prefix_if(nodes: Seq<Node>, vals: Seq<ValueModel>, l: Limits, text: nat, i: int, depth: int,
    c: Counters, ct: usize, yt: usize, nt: usize, x: Run)
    requires
        enters(nodes, l, i, depth, c),
        nodes[i].kind == NodeKind::If(ct, yt, nt), ct < i, yt < i, nt < i,
        stop(nodes, vals, l, text, ct as int, depth + 1, entry(c)) is None,
        run(nodes, vals, ct as int) == Some(x),
    ensures prefix_of(x.trace, used(nodes, vals, l, text, i, depth, c).1),
{
    match x.value {
        ValueModel::Bool(b) => {
            lemma_used_if(nodes, vals, l, text, i, depth, c, ct, yt, nt, x, b);
            let e1 = event("branch", if b { "then branch selected" } else { "else branch selected" }, nodes[i].span,
                Some(ValueModel::Bool(b)));
            let j = (if b { yt } else { nt }) as int;
            let c2 = after(entry(c), x);
            if emit_stop(l, text, c2, e1) is Some {
                lemma_prefix_self(x.trace, Seq::empty());
            } else {
                lemma_if_branch_prefix(nodes, vals, l, text, i, depth, c, ct, yt, nt, x, b);
                let u = used(nodes, vals, l, text, j, depth + 1, bump(c2, e1));
                lemma_prefix_self(x.trace, seq![e1] + u.1);
                assert(x.trace + (seq![e1] + u.1) =~= x.trace.push(e1) + u.1);
                lemma_prefix_trans(x.trace, x.trace.push(e1) + u.1, used(nodes, vals, l, text, i, depth, c).1);
            }
        }
        _ => {
            lemma_used_if_type(nodes, vals, l, text, i, depth, c, ct, yt, nt, x);
            lemma_prefix_self(x.trace, Seq::empty());
        }
    }
}

#[verifier::rlimit(40)]
proof fn lemma_used_if_type(nodes: Seq<Node>, vals: Seq<ValueModel>, l: Limits, text: nat, i: int, depth: int,
    c: Counters, ct: usize, yt: usize, nt: usize, x: Run)
    requires
        enters(nodes, l, i, depth, c),
        nodes[i].kind == NodeKind::If(ct, yt, nt), ct < i, yt < i, nt < i,
        stop(nodes, vals, l, text, ct as int, depth + 1, entry(c)) is None,
        run(nodes, vals, ct as int) == Some(x),
        !(x.value is Bool),
    ensures used(nodes, vals, l, text, i, depth, c) == (1 + x.steps, x.trace),
{
    reveal(used);
}

/// Once the branch of an `if` node is announced, what the node delivers begins with the
/// condition's events and the announcement.
#[verifier::rlimit(40)]
proof fn lemma_if_branch_prefix(nodes: Seq<Node>, vals: Seq<ValueModel>, l: Limits, text: nat, i: int, depth: int,
    c: Counters, ct: usize, yt: usize, nt: usize, x: Run, b: bool)
    requires
        enters(nodes, l, i, depth, c),
        nodes[i].kind == NodeKind::If(ct, yt, nt), ct < i, yt < i, nt < i,
        stop(nodes, vals, l, text, ct as int, depth + 1, entry(c)) is None,
        run(nodes, vals, ct as int) == Some(x),
        x.value == ValueModel::Bool(b),
        emit_stop(l, text, after(entry(c), x), event("branch", if b { "then branch selected" } else { "else branch selected" },
            nodes[i].span, Some(ValueModel::Bool(b)))) is None,
    ensures ({
        let e1 = event("branch", if b { "then branch selected" } else { "else branch selected" }, nodes[i].span,
            Some(ValueModel::Bool(b)));
        let j = (if b { yt } else { nt }) as int;
        let u = used(nodes, vals, l, text, j, depth + 1, bump(after(entry(c), x), e1));
        prefix_of(x.trace.push(e1) + u.1, used(nodes, vals, l, text, i, depth, c).1)
    }),
{
    lemma_used_if(nodes, vals, l, text, i, depth, c, ct, yt, nt, x, b);
    let e1 = event("branch", if b { "then branch selected" } else { "else branch selected" }, nodes[i].span,
        Some(ValueModel::Bool(b)));
    let j = (if b { yt } else { nt }) as int;
    let c2 = after(entry(c), x);
    let u = used(nodes, vals, l, text, j, depth + 1, bump(c2, e1));
    if stop(nodes, vals, l, text, j, depth + 1, bump(c2, e1)) is Some {
        lemma_prefix_self(x.trace.push(e1) + u.1, Seq::empty());
        assert(x.trace.push(e1) + u.1 + Seq::<StepModel>::empty() =~= x.trace.push(e1) + u.1);
    } else {
        lemma_used_complete(nodes, vals, l, text, j, depth + 1, bump(c2, e1));
        let y = run(nodes, vals, j).unwrap();
        let e = emit_trail(l, text, after(bump(c2, e1), y), event("if", "if", nodes[i].span, Some(y.value)));
        lemma_prefix_self(x.trace.push(e1) + y.trace, e);
    }
}

/// A note cancelled after `a`, before or after delivering `x`, leaves a cut of `a` followed by
/// `x`'s trail.
proof fn lemma_note_cut(e0: Seq<StepModel>, a: Seq<StepModel>, x: StepModel, et: Seq<StepModel>, t: Seq<StepModel>,
    e: Seq<StepModel>, pushed: bool)
    requires
        t == a + et,
        pushed ==> et == seq![x] && e == (e0 + a).push(x),
        !pushed ==> e == e0 + a,
    ensures cut_of(e0, e, t),
{
    lemma_prefix_self(a, et);
    if pushed {
        assert(t =~= a.push(x));
        lemma_prefix_self(t, Seq::empty());
        assert((e0 + a).push(x) =~= e0 + a.push(x));
    }
    lemma_cut_either(e0, e, a, x, pushed, t);
}

/// A cancelled right operand of a binary node, after its left operand `y`, leaves a cut of
/// what the node delivers.
#[verifier::rlimit(40)]
proof fn lemma_binary_right_cut(nodes: Seq<Node>, vals: Seq<ValueModel>, l: Limits, text: nat, i: int, depth: int,
    c: Counters, op: Op, lt: usize, rt: usize, y: Run, e0: Seq<StepModel>, e: Seq<StepModel>)
    requires
        enters(nodes, l, i, depth, c),
        nodes[i].kind == NodeKind::Binary(op, lt, rt), lt < i, rt < i,
        stop(nodes, vals, l, text, lt as int, depth + 1, entry(c)) is None,
        run(nodes, vals, lt as int) == Some(y),
        !short_circuits(op, y.value),
        cut_of(e0 + y.trace, e, used(nodes, vals, l, text, rt as int, depth + 1, after(entry(c), y)).1),
    ensures cut_of(e0, e, used(nodes, vals, l, text, i, depth, c).1),
{
    let tr = used(nodes, vals, l, text, rt as int, depth + 1, after(entry(c), y)).1;
    let t = used(nodes, vals, l, text, i, depth, c).1;
    if stop(nodes, vals, l, text, rt as int, depth + 1, after(entry(c), y)) is Some {
        lemma_used_right_stops(nodes, vals, l, text, i, depth, c, op, lt, rt, y);
        lemma_prefix_self(t, Seq::empty());
    } else {
        lemma_used_complete(nodes, vals, l, text, rt as int, depth + 1, after(entry(c), y));
        let zz = run(nodes, vals, rt as int).unwrap();
        lemma_used_binary(nodes, vals, l, text, i, depth, c, op, lt, rt, y, zz);
        match binary_value(op, y.value, zz.value) {
            Some(v) => {
                lemma_prefix_self(y.trace + zz.trace, emit_trail(l, text, after(after(entry(c), y), zz),
                    event("binary", op.spec_label(), nodes[i].span, Some(v))));
            }
            None => { lemma_prefix_self(y.trace + zz.trace, Seq::empty()); }
        }
    }
    lemma_cut_shift(e0, y.trace, e, tr, t);
}

/// Whether a stop is the text budget's.
pub open spec fn text_stop(s: Option<(&'static str, Span)>) -> bool {
    s matches Some((code, _)) && code == "TRACE_VALUE_LIMIT"
}

/// A larger text budget changes nothing about an evaluation that the smaller one does not
/// stop for text.
#[verifier::rlimit(40)]
pub proof fn lemma_stop_text_mono(nodes: Seq<Node>, vals: Seq<ValueModel>, l: Limits, t1: nat, t2: nat, i: int,
    depth: int, c: Counters)
    requires t1 <= t2, !text_stop(stop(nodes, vals, l, t1, i, depth, c)),
    ensures stop(nodes, vals, l, t2, i, depth, c) == stop(nodes, vals, l, t1, i, depth, c),
    decreases i,
{
    if 0 <= i < nodes.len() {
        let n = nodes[i];
        let c1 = entry(c);
        match n.kind {
            NodeKind::Unary(op, ch) => {
                if ch < i {
                    lemma_stop_text_mono(nodes, vals, l, t1, t2, ch as int, depth + 1, c1);
                }
            }
            NodeKind::Binary(op, lt, rt) => {
                if lt < i && rt < i {
                    lemma_stop_text_mono(nodes, vals, l, t1, t2, lt as int, depth + 1, c1);
                    if stop(nodes, vals, l, t1, lt as int, depth + 1, c1) is None && run(nodes, vals, lt as int) is Some {
                        let x = run(nodes, vals, lt as int).unwrap();
                        if !short_circuits(op, x.value) {
                            lemma_stop_text_mono(nodes, vals, l, t1, t2, rt as int, depth + 1, after(c1, x));
                        }
                    }
                }
            }
            NodeKind::If(ct, yt, nt) => {
                if ct < i && yt < i && nt < i {
                    lemma_stop_text_mono(nodes, vals, l, t1, t2, ct as int, depth + 1, c1);
                    if stop(nodes, vals, l, t1, ct as int, depth + 1, c1) is None && run(nodes, vals, ct as int) is Some {
                        let x = run(nodes, vals, ct as int).unwrap();
                        if x.value is Bool {
                            let b = x.value->Bool_0;
                            let e1 = event("branch", if b { "then branch selected" } else { "else branch selected" },
                                n.span, Some(ValueModel::Bool(b)));
                            let j = if b { yt } else { nt };
                            if emit_stop(l, t1, after(c1, x), e1) is None {
                                lemma_stop_text_mono(nodes, vals, l, t1, t2, j as int, depth + 1, bump(after(c1, x), e1));
                            }
                        }
                    }
                }
            }
            _ => {}
        }
    }
}

/// An evaluation that does not stop completes, and uses exactly its steps and events.
#[verifier::rlimit(40)]
pub proof fn lemma_used_complete(nodes: Seq<Node>, vals: Seq<ValueModel>, l: Limits, text: nat, i: int, depth: int, c: Counters)
    requires stop(nodes, vals, l, text, i, depth, c) is None,
    ensures
        run(nodes, vals, i) matches Some(x) && used(nodes, vals, l, text, i, depth, c) == (x.steps, x.trace),
{
    match nodes[i].kind {
        NodeKind::Input(_) => { lemma_complete_input(nodes, vals, l, text, i, depth, c); }
        NodeKind::Literal(_) => { lemma_complete_literal(nodes, vals, l, text, i, depth, c); }
        NodeKind::Unary(_, _) => { lemma_complete_unary(nodes, vals, l, text, i, depth, c); }
        NodeKind::Binary(_, _, _) => { lemma_complete_binary(nodes, vals, l, text, i, depth, c); }
        NodeKind::If(_, _, _) => { lemma_complete_if(nodes, vals, l, text, i, depth, c); }
    }
}

#[verifier::rlimit(40)]
proof fn lemma_complete_input(nodes: Seq<Node>, vals: Seq<ValueModel>, l: Limits, text: nat, i: int, depth: int, c: Counters)
    requires stop(nodes, vals, l, text, i, depth, c) is None, 0 <= i < nodes.len(), nodes[i].kind is Input,
    ensures
        run(nodes, vals, i) matches Some(x) && used(nodes, vals, l, text, i, depth, c) == (x.steps, x.trace),
{
    reveal(used);
    let k = nodes[i].kind->Input_0;
    let e = event("input", "input", nodes[i].span, Some(vals[k as int]));
    assert(seq![e] =~= Seq::<StepModel>::empty().push(e));
}

#[verifier::rlimit(40)]
proof fn lemma_complete_literal(nodes: Seq<Node>, vals: Seq<ValueModel>, l: Limits, text: nat, i: int, depth: int, c: Counters)
    requires stop(nodes, vals, l, text, i, depth, c) is None, 0 <= i < nodes.len(), nodes[i].kind is Literal,
    ensures
        run(nodes, vals, i) matches Some(x) && used(nodes, vals, l, text, i, depth, c) == (x.steps, x.trace),
{
    reveal(used);
}

#[verifier::rlimit(40)]
proof fn lemma_complete_unary(nodes: Seq<Node>, vals: Seq<ValueModel>, l: Limits, text: nat, i: int, depth: int, c: Counters)
    requires stop(nodes, vals, l, text, i, depth, c) is None, 0 <= i < nodes.len(), nodes[i].kind is Unary,
    ensures
        run(nodes, vals, i) matches Some(x) && used(nodes, vals, l, text, i, depth, c) == (x.steps, x.trace),
{
    reveal(used);
    let op = nodes[i].kind->Unary_0;
    let ch = nodes[i].kind->Unary_1;
    let x = run(nodes, vals, ch as int).unwrap();
    let e = event("unary", op.spec_label(), nodes[i].span, Some(unary_value(op, x.value).unwrap()));
    assert(x.trace + seq![e] =~= x.trace.push(e));
}

#[verifier::rlimit(40)]
proof fn lemma_complete_binary(nodes: Seq<Node>, vals: Seq<ValueModel>, l: Limits, text: nat, i: int, depth: int, c: Counters)
    requires stop(nodes, vals, l, text, i, depth, c) is None, 0 <= i < nodes.len(), nodes[i].kind is Binary,
    ensures
        run(nodes, vals, i) matches Some(x) && used(nodes, vals, l, text, i, depth, c) == (x.steps, x.trace),
{
    reveal(used);
    let op = nodes[i].kind->Binary_0;
    let lt = nodes[i].kind->Binary_1;
    let rt = nodes[i].kind->Binary_2;
    let span = nodes[i].span;
    let x = run(nodes, vals, lt as int).unwrap();
    if short_circuits(op, x.value) {
        let e1 = event("short-circuit", short_label(op), span, None);
        let e2 = event("binary", op.spec_label(), span, Some(x.value));
        assert(x.trace + (seq![e1] + seq![e2]) =~= x.trace.push(e1).push(e2));
    } else {
        let y = run(nodes, vals, rt as int).unwrap();
        let e = event("binary", op.spec_label(), span, Some(binary_value(op, x.value, y.value).unwrap()));
        assert(x.trace + y.trace + seq![e] =~= (x.trace + y.trace).push(e));
    }
}

#[verifier::rlimit(40)]
proof fn lemma_complete_if(nodes: Seq<Node>, vals: Seq<ValueModel>, l: Limits, text: nat, i: int, depth: int, c: Counters)
    requires stop(nodes, vals, l, text, i, depth, c) is None, 0 <= i < nodes.len(), nodes[i].kind is If,
    ensures
        run(nodes, vals, i) matches Some(x) && used(nodes, vals, l, text, i, depth, c) == (x.steps, x.trace),
{
    reveal(used);
    let ct = nodes[i].kind->If_0;
    let yt = nodes[i].kind->If_1;
    let nt = nodes[i].kind->If_2;
    let span = nodes[i].span;
    let x = run(nodes, vals, ct as int).unwrap();
    let b = x.value->Bool_0;
    let j = if b { yt } else { nt };
    let y = run(nodes, vals, j as int).unwrap();
    let e1 = event("branch", if b { "then branch selected" } else { "else branch selected" }, span, Some(ValueModel::Bool(b)));
    let e = event("if", "if", span, Some(y.value));
    assert((x.trace.push(e1) + y.trace) + seq![e] =~= (x.trace.push(e1) + y.trace).push(e));
}

/// A whole run that does not stop completes, and uses exactly its steps and events.
pub proof fn lemma_program_used_complete(p: CompiledExpression, vals: Seq<ValueModel>, l: Limits, text: nat)
    requires program_stop(p, vals, l, text) is None,
    ensures program_run(p, vals) matches Some(x) && program_used(p, vals, l, text) == (x.steps, x.trace),
{
    lemma_used_complete(p.spec_nodes(), vals, l, text, p.spec_root(), 1, Counters { steps: 0, emitted: 0, units: 0 });
}

/// What a run of a whole program on the given input values uses up to its end or stop.
pub open spec fn program_used(p: CompiledExpression, vals: Seq<ValueModel>, l: Limits, text: nat) -> (nat, Seq<StepModel>) {
    used(p.spec_nodes(), vals, l, text, p.spec_root(), 1, Counters { steps: 0, emitted: 0, units: 0 })
}

/// Why a run of a whole program on the given input values stops short, if it does.
pub open spec fn program_stop(p: CompiledExpression, vals: Seq<ValueModel>, l: Limits, text: nat) -> Option<(&'static str, Span)> {
    stop(p.spec_nodes(), vals, l, text, p.spec_root(), 1, Counters { steps: 0, emitted: 0, units: 0 })
}

/// Codes with which evaluation of a validated program and bindings can stop.
pub open spec fn runtime_code(c: &'static str) -> bool {
    c == "CANCELLED" || c == "STEP_LIMIT" || c == "DEPTH_LIMIT" || c == "TRACE_LIMIT"
        || c == "TRACE_VALUE_LIMIT" || c == "INTEGER_RANGE"
}

/// The input values a program reads: the bound value of each declared input, in order.
pub open spec fn program_values(inputs: Seq<InputSpec>, bindings: InputBindings) -> Seq<ValueModel> {
    Seq::new(inputs.len(), |i: int| bindings.at(inputs[i].id@)@)
}

/// The evaluation of a whole program on the given input values.
pub open spec fn program_run(p: CompiledExpression, vals: Seq<ValueModel>) -> Option<Run> {
    run(p.spec_nodes(), vals, p.spec_root())
}

/// What a run of `p` reports, where `problem` is the refusal of its bindings, if any, and
/// `vals` the values they give: invalid budgets and refused bindings are reported before
/// anything runs; otherwise a success carries exactly the program's value, steps and
/// events, and a failure is either a cancellation or exactly the stop that `program_stop`
/// gives (code and span), after the steps and events that `program_used` gives, where
/// leaving the integer domain is reported only when the evaluation does, and a complete
/// evaluation within every budget can only be stopped by cancellation.
pub open spec fn outcome_ok(p: CompiledExpression, problem: Option<&'static str>, vals: Seq<ValueModel>,
    limits: Limits, options: ObservationOptions, o: Outcome, emitted: int, units: int) -> bool
{
    if !limits_ok(limits) {
        &&& o.result matches Err(d) && d.code == "INVALID_LIMIT" && d.span == p.spec_span()
        &&& o.trace@.len() == 0 && o.steps == 0 && emitted == 0 && units == 0
    } else if problem is Some {
        &&& o.result matches Err(d) && Some(d.code) == problem && d.span == spec_boundary_span()
        &&& o.trace@.len() == 0 && o.steps == 0 && emitted == 0 && units == 0
    } else {
        &&& emitted <= limits.max_trace
        &&& units <= options.max_trace_text_units
        &&& o.steps <= limits.max_steps + 1
        &&& o.trace@.len() == (if options.retain_trace { emitted } else { 0 })
        &&& match o.result {
            Ok(v) => program_run(p, vals) matches Some(x)
                && v@ == x.value && fits(x, limits, options)
                && o.steps == x.steps && emitted == x.trace.len()
                && units == trace_units(x.trace)
                && (options.retain_trace ==> trace_view(o.trace@) == x.trace)
                && program_stop(p, vals, limits, options.max_trace_text_units as nat) is None,
            Err(d) => runtime_code(d.code)
                && (d.code == "INTEGER_RANGE" ==> program_run(p, vals) is None)
                && (program_run(p, vals) matches Some(x) && fits(x, limits, options) ==> d.code == "CANCELLED")
                && (d.code == "CANCELLED" || stopped_as(p, vals, limits, options, o, emitted, units, d)),
        }
    }
}

/// A run stopped short of its end exactly as `program_stop` and `program_used` say: with
/// their code and span, having taken the steps and emitted the events that they give.
pub open spec fn stopped_as(p: CompiledExpression, vals: Seq<ValueModel>, limits: Limits, options: ObservationOptions,
    o: Outcome, emitted: int, units: int, d: Diagnostic) -> bool
{
    let text = options.max_trace_text_units as nat;
    let u = program_used(p, vals, limits, text);
    &&& Some((d.code, d.span)) == program_stop(p, vals, limits, text)
    &&& o.steps == u.0
    &&& emitted == u.1.len()
    &&& units == trace_units(u.1)
    &&& options.retain_trace ==> trace_view(o.trace@) == u.1
}

/// What a run of `p` on `bindings` reports, with its event and text counts.
pub open spec fn observed_ok(p: CompiledExpression, bindings: InputBindings, limits: Limits,
    options: ObservationOptions, r: ObservedOutcome) -> bool
{
    &&& r.options == options
    &&& outcome_ok(p, resolve_problem(p.spec_inputs(), bindings), program_values(p.spec_inputs(), bindings),
        limits, options, r.outcome, r.emitted_events as int, r.observed_text_units as int)
}

/// The events a run of `p` delivers when nothing cancels it: none where budgets or bindings
/// are refused, otherwise those that `program_used` gives, up to the end or the stop.
pub open spec fn delivered(p: CompiledExpression, problem: Option<&'static str>, vals: Seq<ValueModel>,
    limits: Limits, options: ObservationOptions) -> Seq<StepModel>
{
    if !limits_ok(limits) || problem is Some {
        Seq::empty()
    } else {
        program_used(p, vals, limits, options.max_trace_text_units as nat).1
    }
}

/// What the observer of a run was shown, `s`, set against `d`, the events the run delivers
/// when nothing cancels it: one entry per emitted event, in order, each the next event of
/// `d`; only the last may have asked the run to stop, and then the run reports `CANCELLED`;
/// a run that was not cancelled showed all of `d`; a retained trace holds exactly what was
/// shown.
pub open spec fn events_shown(s: Seq<(StepModel, bool)>, d: Seq<StepModel>, r: ObservedOutcome) -> bool {
    &&& s.len() == r.emitted_events
    &&& s.len() <= d.len()
    &&& forall|k: int| 0 <= k < s.len() ==> (#[trigger] s[k]).0 == d[k]
    &&& forall|k: int| 0 <= k < s.len() && !(#[trigger] s[k]).1 ==> (k == s.len() - 1 && !not_cancelled(r.outcome))
    &&& not_cancelled(r.outcome) ==> s.len() == d.len()
    &&& r.options.retain_trace ==> trace_view(r.outcome.trace@) == d.subrange(0, s.len() as int)
}

/// An observer whose log went from `before` to `after` over a run was shown what
/// `events_shown` says, appended to what it had seen before.
pub open spec fn shown_ok(before: Seq<(StepModel, bool)>, after: Seq<(StepModel, bool)>, d: Seq<StepModel>,
    r: ObservedOutcome) -> bool
{
    &&& before.len() <= after.len()
    &&& after.subrange(0, before.len() as int) == before
    &&& events_shown(after.subrange(before.len() as int, after.len() as int), d, r)
}

/// Every reply in `calls` is one that the host callback `f` can give to the event beside it.
pub open spec fn answered<F: FnMut(&TraceStep) -> ControlFlow<()>>(f: F, calls: Seq<(TraceStep, ControlFlow<()>)>) -> bool {
    forall|k: int| 0 <= k < calls.len() ==> call_ensures(f, (&(#[trigger] calls[k]).0,), calls[k].1)
}

/// The refusal of empty bindings: a program that declares inputs misses them.
pub open spec fn unbound_problem(inputs: Seq<InputSpec>) -> Option<&'static str> {
    if inputs.len() == 0 { None } else { Some("MISSING_INPUT") }
}

/// The options of a plain run: every event retained, no text budget.
pub open spec fn default_options() -> ObservationOptions {
    ObservationOptions { retain_trace: true, max_trace_text_units: usize::MAX }
}

/// Whether a run was not stopped by cancellation.
pub open spec fn not_cancelled(o: Outcome) -> bool {
    !(o.result matches Err(d) && d.code == "CANCELLED")
}

/// Where evaluation events go. `ready` is what a call needs; a `quiet` observer never stops
/// a run. `seen` and `seen_units` count the events shown to the observer and the text they
/// carried; `halted` records that it has asked a run to stop; `bounds` are settings that
/// observing does not change.
pub(crate) trait Observer {
    spec fn ready(&self) -> bool;

    spec fn quiet(&self) -> bool;

    spec fn seen(&self) -> nat;

    spec fn seen_units(&self) -> nat;

    spec fn halted(&self) -> bool;

    /// Settings of the observer that observing leaves as they are.
    spec fn bounds(&self) -> (nat, nat);

    /// The host code behind the observer, which observing leaves as it is.
    type Host;

    spec fn host(&self) -> Self::Host;

    /// Every event shown to the observer, each with whether it let the run continue.
    spec fn log(&self) -> Seq<(StepModel, bool)>;

    fn observe(&mut self, step: &TraceStep) -> (r: ControlFlow<()>)
        requires old(self).ready(),
        ensures
            final(self).bounds() == old(self).bounds(),
            final(self).host() == old(self).host(),
            final(self).log() == old(self).log().push((step_view(*step), r is Continue)),
            final(self).ready(), old(self).quiet() ==> (r is Continue && final(self).quiet()),
            final(self).seen() == old(self).seen() + 1,
            final(self).seen_units() == old(self).seen_units() + step_units(step_view(*step)),
            r is Break ==> final(self).halted(),
            old(self).halted() ==> final(self).halted();
}

/// An observer that never stops a run.
pub(crate) struct Silent {
    pub(crate) seen: Ghost<nat>,
    pub(crate) seen_units: Ghost<nat>,
    pub(crate) log: Ghost<Seq<(StepModel, bool)>>,
}

impl Silent {
    pub(crate) fn new() -> (s: Silent)
        ensures s.quiet(), s.seen() == 0, s.seen_units() == 0, !s.halted(), s.log().len() == 0,
    {
        Silent { seen: Ghost(0), seen_units: Ghost(0), log: Ghost(Seq::empty()) }
    }
}

impl Observer for Silent {
    open spec fn ready(&self) -> bool { true }

    open spec fn quiet(&self) -> bool { true }

    open spec fn seen(&self) -> nat { self.seen@ }

    open spec fn seen_units(&self) -> nat { self.seen_units@ }

    open spec fn halted(&self) -> bool { false }

    open spec fn bounds(&self) -> (nat, nat) { (0, 0) }

    type Host = ();

    open spec fn host(&self) -> () { () }

    open spec fn log(&self) -> Seq<(StepModel, bool)> { self.log@ }

    fn observe(&mut self, step: &TraceStep) -> (r: ControlFlow<()>) {
        self.seen = Ghost(self.seen@ + 1);
        self.seen_units = Ghost(self.seen_units@ + step_units(step_view(*step)));
        self.log = Ghost(self.log@.push((step_view(*step), true)));
        ControlFlow::Continue(())
    }
}

/// A host callback, called synchronously once per event.
pub(crate) struct Callback<F> {
    pub(crate) f: F,
    pub(crate) seen: Ghost<nat>,
    pub(crate) seen_units: Ghost<nat>,
    pub(crate) halted: Ghost<bool>,
    pub(crate) calls: Ghost<Seq<(TraceStep, ControlFlow<()>)>>,
}

/// What a host callback was handed and replied, as an observer log.
pub open spec fn calls_log(calls: Seq<(TraceStep, ControlFlow<()>)>) -> Seq<(StepModel, bool)> {
    calls.map_values(|c: (TraceStep, ControlFlow<()>)| (step_view(c.0), c.1 is Continue))
}

impl<F: FnMut(&TraceStep) -> ControlFlow<()>> Observer for Callback<F> {
    open spec fn ready(&self) -> bool {
        &&& forall|s: &TraceStep| call_requires(self.f, (s,))
        &&& forall|k: int| 0 <= k < self.calls@.len() ==> call_ensures(self.f, (&(#[trigger] self.calls@[k]).0,), self.calls@[k].1)
    }

    open spec fn quiet(&self) -> bool { false }

    open spec fn seen(&self) -> nat { self.seen@ }

    open spec fn seen_units(&self) -> nat { self.seen_units@ }

    open spec fn halted(&self) -> bool { self.halted@ }

    open spec fn bounds(&self) -> (nat, nat) { (0, 0) }

    type Host = F;

    open spec fn host(&self) -> F { self.f }

    open spec fn log(&self) -> Seq<(StepModel, bool)> { calls_log(self.calls@) }

    fn observe(&mut self, step: &TraceStep) -> (r: ControlFlow<()>) {
        let ghost before = self.calls@;
        let r = (self.f)(step);
        self.calls = Ghost(before.push((*step, r)));
        assert(calls_log(self.calls@) =~= calls_log(before).push((step_view(*step), r is Continue)));
        self.seen = Ghost(self.seen@ + 1);
        self.seen_units = Ghost(self.seen_units@ + step_units(step_view(*step)));
        match r {
            ControlFlow::Break(()) => {
                self.halted = Ghost(true);
                ControlFlow::Break(())
            }
            ControlFlow::Continue(()) => ControlFlow::Continue(()),
        }
    }
}

/// Law: observation does not change execution. Two runs of one program on the same values,
/// under the same limits and text budget, neither of them cancelled, agree on success, on
/// the value, on the step count, on the number of events and on their text, whether or not
/// they retained their trace; runs that both retained it hold the same trace; failed runs
/// fail with the same code at the same span.
pub proof fn lemma_observation_parity(p: CompiledExpression, problem: Option<&'static str>, vals: Seq<ValueModel>,
    limits: Limits, o1: ObservationOptions, o2: ObservationOptions, a: Outcome, ea: int, ua: int, b: Outcome, eb: int, ub: int)
    requires
        outcome_ok(p, problem, vals, limits, o1, a, ea, ua),
        outcome_ok(p, problem, vals, limits, o2, b, eb, ub),
        o1.max_trace_text_units == o2.max_trace_text_units,
        not_cancelled(a), not_cancelled(b),
    ensures
        a.result is Ok <==> b.result is Ok,
        a.result is Ok ==> a.result->Ok_0@ == b.result->Ok_0@,
        a.steps == b.steps && ea == eb && ua == ub,
        o1.retain_trace && o2.retain_trace ==> trace_view(a.trace@) == trace_view(b.trace@),
        a.result matches Err(d) ==> b.result matches Err(e) && d.code == e.code && d.span == e.span,
{
    if !limits_ok(limits) || problem is Some {
        assert(trace_view(a.trace@) =~= trace_view(b.trace@));
    }
}

/// Law: an observer of a run that was not cancelled, under a text budget that never binds,
/// was shown exactly the events that a plain run of the same program on the same values
/// retains, in order, and let each of them pass.
pub proof fn lemma_observer_sees_plain_trace(p: CompiledExpression, problem: Option<&'static str>, vals: Seq<ValueModel>,
    limits: Limits, options: ObservationOptions, r: ObservedOutcome, s: Seq<(StepModel, bool)>, o: Outcome)
    requires
        outcome_ok(p, problem, vals, limits, options, r.outcome, r.emitted_events as int, r.observed_text_units as int),
        events_shown(s, delivered(p, problem, vals, limits, options), r),
        outcome_ok(p, problem, vals, limits, default_options(), o, o.trace@.len() as int,
            trace_units(trace_view(o.trace@)) as int),
        options.max_trace_text_units == usize::MAX,
        not_cancelled(r.outcome), not_cancelled(o),
    ensures
        s.len() == o.trace@.len(),
        forall|k: int| 0 <= k < s.len() ==> (#[trigger] s[k]).0 == step_view(o.trace@[k]) && s[k].1,
{
    let d = delivered(p, problem, vals, limits, options);
    assert(trace_view(o.trace@) == d) by {
        if !limits_ok(limits) || problem is Some {
            assert(trace_view(o.trace@) =~= d);
        } else if o.result is Ok {
            lemma_program_used_complete(p, vals, limits, usize::MAX as nat);
        }
    }
    assert forall|k: int| 0 <= k < s.len() implies (#[trigger] s[k]).0 == step_view(o.trace@[k]) && s[k].1 by {
        assert(trace_view(o.trace@)[k] == step_view(o.trace@[k]));
    }
}

pub proof fn lemma_trace_units_append(a: Seq<StepModel>, b: Seq<StepModel>)
    ensures trace_units(a + b) == trace_units(a) + trace_units(b),
    decreases b.len(),
{
    if b.len() == 0 {
        assert(a + b =~= a);
    } else {
        assert((a + b).drop_last() =~= a + b.drop_last());
        lemma_trace_units_append(a, b.drop_last());
    }
}

/// A completed evaluation has the type the checker gave its node, and integers stay in
/// the language domain.
pub proof fn lemma_run_type(nodes: Seq<Node>, inputs: Seq<InputSpec>, vals: Seq<ValueModel>, i: int, units: nat)
    requires arena_ok(nodes, inputs, units), well_typed_values(inputs, vals), 0 <= i < nodes.len(),
        run(nodes, vals, i) is Some,
    ensures
        model_type(run(nodes, vals, i).unwrap().value) == nodes[i].ty,
        run(nodes, vals, i).unwrap().value matches ValueModel::Int(n) ==> in_domain(n as int),
        run(nodes, vals, i).unwrap().height <= nodes[i].depth,
    decreases i,
{
    assert(node_ok(nodes, inputs, i, units));
    match nodes[i].kind {
        NodeKind::Unary(_, c) => { lemma_run_type(nodes, inputs, vals, c as int, units); }
        NodeKind::Binary(op, l, r) => {
            lemma_run_type(nodes, inputs, vals, l as int, units);
            let x = run(nodes, vals, l as int).unwrap();
            if !short_circuits(op, x.value) {
                lemma_run_type(nodes, inputs, vals, r as int, units);
            }
        }
        NodeKind::If(c, t, f) => {
            lemma_run_type(nodes, inputs, vals, c as int, units);
            let x = run(nodes, vals, c as int).unwrap();
            if x.value == ValueModel::Bool(true) {
                lemma_run_type(nodes, inputs, vals, t as int, units);
            } else {
                lemma_run_type(nodes, inputs, vals, f as int, units);
            }
        }
        _ => {}
    }
}

struct Executor<'a> {
    program: &'a CompiledExpression,
    values: Vec<&'a Value>,
    limits: Limits,
    options: ObservationOptions,
    cancellation: Option<&'a CancellationToken>,
    trace: Vec<TraceStep>,
    steps: usize,
    emitted: usize,
    units: usize,
    quiet: Ghost<bool>,
    seen0: Ghost<nat>,
    units0: Ghost<nat>,
    halted: Ghost<bool>,
    bounds0: Ghost<(nat, nat)>,
    events: Ghost<Seq<StepModel>>,
    log0: Ghost<Seq<(StepModel, bool)>>,
    shown: Ghost<Seq<(StepModel, bool)>>,
}

impl<'a> Executor<'a> {
    spec fn vals(&self) -> Seq<ValueModel> {
        self.values@.map_values(|v: &Value| v@)
    }

    spec fn inv<O: Observer>(&self, observer: &O) -> bool {
        &&& self.program.wf()
        &&& well_typed_values(self.program.spec_inputs(), self.vals())
        &&& limits_ok(self.limits)
        &&& self.emitted <= self.limits.max_trace
        &&& self.units <= self.options.max_trace_text_units
        &&& self.steps <= self.limits.max_steps + 1
        &&& self.trace@.len() == (if self.options.retain_trace { self.emitted as int } else { 0 })
        &&& self.options.retain_trace ==> trace_view(self.trace@) == self.events@
        &&& self.events@.len() == self.emitted
        &&& trace_units(self.events@) == self.units
        &&& observer.log() == self.log0@ + self.shown@
        &&& self.shown@.len() == self.events@.len()
        &&& forall|k: int| 0 <= k < self.shown@.len() ==> (#[trigger] self.shown@[k]).0 == self.events@[k]
        &&& forall|k: int| 0 <= k < self.shown@.len() && !(#[trigger] self.shown@[k]).1 ==> self.halted@ && k == self.shown@.len() - 1
        &&& observer.ready()
        &&& self.quiet@ ==> (observer.quiet() && self.cancellation is None)
        &&& observer.seen() == self.seen0@ + self.emitted
        &&& observer.seen_units() == self.units0@ + self.units
        &&& self.halted@ ==> observer.halted()
        &&& observer.bounds() == self.bounds0@
    }

    spec fn counters(&self) -> Counters {
        Counters { steps: self.steps as nat, emitted: self.emitted as nat, units: self.units as nat }
    }

    /// Same program, values and settings.
    spec fn same(&self, other: &Self) -> bool {
        &&& self.program == other.program
        &&& self.values@ == other.values@
        &&& self.limits == other.limits
        &&& self.options == other.options
        &&& self.cancellation == other.cancellation
        &&& self.quiet == other.quiet
        &&& self.seen0 == other.seen0
        &&& self.units0 == other.units0
        &&& self.bounds0 == other.bounds0
        &&& self.log0 == other.log0
        &&& self.steps >= other.steps
        &&& self.emitted >= other.emitted
        &&& self.units >= other.units
    }

    fn checkpoint(&self, span: Span) -> (r: Result<(), Diagnostic>)
        ensures
            r matches Err(d) ==> d.code == "CANCELLED",
            self.cancellation is None ==> r is Ok,
    {
        match self.cancellation {
            Some(token) => {
                if token.is_cancelled() {
                    Err(Diagnostic::new("CANCELLED", String::from_str("Execution cancelled; no completed result is available."), span))
                } else {
                    Ok(())
                }
            }
            None => Ok(()),
        }
    }

    /// Emits one event: checks cancellation and budgets, delivers it, retains it if asked.
    fn note<O: Observer>(&mut self, observer: &mut O, kind: &'static str, label: &'static str, span: Span,
        value: Option<Value>) -> (r: Result<(), Diagnostic>)
        requires old(self).inv(&*old(observer)), !old(self).halted@,
        ensures
            final(self).inv(&*final(observer)), final(self).same(&*old(self)), final(observer).host() == old(observer).host(),
            final(self).steps == old(self).steps,
            match r {
                Ok(()) => {
                    &&& final(self).emitted == old(self).emitted + 1
                    &&& final(self).units == old(self).units + step_units(event(kind, label, span, option_view(value)))
                    &&& final(self).events@ == old(self).events@.push(event(kind, label, span, option_view(value)))
                },
                Err(d) => {
                    &&& d.code == "CANCELLED" || d.code == "TRACE_LIMIT" || d.code == "TRACE_VALUE_LIMIT"
                    &&& d.code == "CANCELLED" ==> !old(self).quiet@
                    &&& (old(self).emitted < old(self).limits.max_trace
                        && old(self).units + step_units(event(kind, label, span, option_view(value))) <= old(self).options.max_trace_text_units
                        ==> d.code == "CANCELLED" && !old(self).quiet@)
                    &&& (d.code == "CANCELLED" && !old(self).quiet@) || (Some((d.code, d.span))
                        == emit_stop(old(self).limits, old(self).options.max_trace_text_units as nat, old(self).counters(), event(kind, label, span, option_view(value)))
                        && final(self).counters() == old(self).counters() && final(self).events@ == old(self).events@)
                    &&& d.code == "CANCELLED" ==> old(self).cancellation is Some || final(self).halted@
                    &&& d.code == "CANCELLED" ==> (final(self).counters() == old(self).counters() && final(self).events@ == old(self).events@)
                        || (final(self).counters() == bump(old(self).counters(), event(kind, label, span, option_view(value)))
                            && final(self).events@ == old(self).events@.push(event(kind, label, span, option_view(value)))
                            && emit_stop(old(self).limits, old(self).options.max_trace_text_units as nat, old(self).counters(),
                                event(kind, label, span, option_view(value))) is None)
                },
            },
            r is Ok ==> emit_stop(old(self).limits, old(self).options.max_trace_text_units as nat, old(self).counters(), event(kind, label, span, option_view(value))) is None,
            final(self).halted@ ==> (r matches Err(d) && d.code == "CANCELLED"),
    {
        self.checkpoint(span)?;
        if self.emitted >= self.limits.max_trace {
            return Err(Diagnostic::new("TRACE_LIMIT", String::from_str("Trace budget exceeded; this run is incomplete."), span));
        }
        let units: usize = match &value { Some(Value::Text(text)) => text.len(), _ => 0 };
        if units > self.options.max_trace_text_units - self.units {
            return Err(Diagnostic::new("TRACE_VALUE_LIMIT", String::from_str("Observed text budget exceeded; this run is incomplete."), span));
        }
        let step = TraceStep { kind, label, span, value };
        self.units = self.units + units;
        self.emitted = self.emitted + 1;
        proof { lemma_units_push(self.events@, step_view(step)); }
        self.events = Ghost(self.events@.push(step_view(step)));
        let decision = observer.observe(&step);
        self.shown = Ghost(self.shown@.push((step_view(step), decision is Continue)));
        let ghost before = self.trace@;
        if self.options.retain_trace {
            self.trace.push(step);
            assert(trace_view(self.trace@) =~= trace_view(before).push(step_view(step)));
        }
        match decision {
            ControlFlow::Break(()) => {
                self.halted = Ghost(true);
                return Err(Diagnostic::new("CANCELLED", String::from_str("Observer cancelled execution; no completed result is available."), span));
            }
            ControlFlow::Continue(()) => {}
        }
        self.checkpoint(span)
    }
}


pub proof fn lemma_units_push(s: Seq<StepModel>, e: StepModel)
    ensures trace_units(s.push(e)) == trace_units(s) + step_units(e),
{
    assert(s.push(e).drop_last() =~= s);
}

impl<'a> Executor<'a> {
    spec fn run_at(&self, id: int) -> Option<Run> {
        run(self.program.spec_nodes(), self.vals(), id)
    }

    /// Whether a completed evaluation started from this state at `depth` stays within budget.
    spec fn room(&self, x: Run, depth: int) -> bool {
        &&& self.steps + x.steps <= self.limits.max_steps
        &&& depth + x.height <= self.limits.max_depth + 1
        &&& self.emitted + x.trace.len() <= self.limits.max_trace
        &&& self.units + trace_units(x.trace) <= self.options.max_trace_text_units
    }

    /// What a completed evaluation of `id` changes.
    spec fn completed(&self, old: &Self, x: Run, depth: int) -> bool {
        &&& self.steps == old.steps + x.steps
        &&& self.emitted == old.emitted + x.trace.len()
        &&& self.units == old.units + trace_units(x.trace)
        &&& self.events@ == old.events@ + x.trace
        &&& old.room(x, depth)
    }

    spec fn stop_at(&self, id: int, depth: int) -> Option<(&'static str, Span)> {
        stop(self.program.spec_nodes(), self.vals(), self.limits, self.options.max_trace_text_units as nat, id, depth, self.counters())
    }

    spec fn used_at(&self, id: int, depth: int) -> (nat, Seq<StepModel>) {
        used(self.program.spec_nodes(), self.vals(), self.limits, self.options.max_trace_text_units as nat, id, depth, self.counters())
    }

    /// A cancelled evaluation from `old` emitted no more events, nor text, than `u` holds.
    spec fn within(&self, old: &Self, u: (nat, Seq<StepModel>)) -> bool {
        &&& self.emitted <= old.emitted + u.1.len()
        &&& self.units <= old.units + trace_units(u.1)
    }

    /// A cancelled evaluation from `old` delivered a prefix of `t`.
    spec fn cut(&self, old: &Self, t: Seq<StepModel>) -> bool {
        cut_of(old.events@, self.events@, t)
    }

    /// What a stopped evaluation from `old` used: its steps and events.
    spec fn spent(&self, old: &Self, u: (nat, Seq<StepModel>)) -> bool {
        &&& self.steps == old.steps + u.0
        &&& self.emitted == old.emitted + u.1.len()
        &&& self.units == old.units + trace_units(u.1)
        &&& self.events@ == old.events@ + u.1
    }

    spec fn outcome(&self, old: &Self, id: int, depth: int, r: Result<Value, Diagnostic>) -> bool {
        match r {
            Ok(v) => old.run_at(id) matches Some(x) && v@ == x.value && self.completed(old, x, depth)
                && old.stop_at(id, depth) is None && !self.halted@,
            Err(d) => runtime_code(d.code)
                && (d.code == "CANCELLED" ==> !old.quiet@)
                && (d.code == "INTEGER_RANGE" ==> old.run_at(id) is None)
                && (old.run_at(id) matches Some(x) && old.room(x, depth) ==> d.code == "CANCELLED" && !old.quiet@)
                && ((d.code == "CANCELLED" && !old.quiet@)
                    || (Some((d.code, d.span)) == old.stop_at(id, depth) && self.spent(old, old.used_at(id, depth))))
                && (d.code == "CANCELLED" ==> (old.cancellation is Some || self.halted@))
                && (d.code == "CANCELLED" ==> self.cut(old, old.used_at(id, depth).1))
                && (self.halted@ ==> d.code == "CANCELLED"),
        }
    }

    fn checked(value: Option<i64>, span: Span) -> (r: Result<Value, Diagnostic>)
        ensures
            match value {
                Some(n) => if in_domain(n as int) { r matches Ok(v) && v@ == ValueModel::Int(n) } else { r matches Err(d) && d.code == "INTEGER_RANGE" },
                None => r matches Err(d) && d.code == "INTEGER_RANGE",
            },
            r matches Err(d) ==> d.span == span,
    {
        match value {
            Some(n) => {
                if -MAX_INT <= n && n <= MAX_INT {
                    Ok(Value::Int(n))
                } else {
                    Err(Diagnostic::new("INTEGER_RANGE", String::from_str("Expected a safe integer; overflow and coercion are not permitted."), span))
                }
            }
            None => Err(Diagnostic::new("INTEGER_RANGE", String::from_str("Expected a safe integer; overflow and coercion are not permitted."), span)),
        }
    }

    /// Evaluates node `id` at call depth `depth`.
    fn eval<O: Observer>(&mut self, observer: &mut O, id: usize, depth: usize) -> (r: Result<Value, Diagnostic>)
        requires
            old(self).inv(&*old(observer)), !old(self).halted@,
            id < old(self).program.spec_nodes().len(),
            1 <= depth <= old(self).limits.max_depth + 1,
            old(self).steps <= old(self).limits.max_steps,
        ensures
            final(self).inv(&*final(observer)), final(self).same(&*old(self)), final(observer).host() == old(observer).host(),
            final(self).outcome(&*old(self), id as int, depth as int, r),
        decreases id, 3int,
    {
        let program = self.program;
        proof {
            program.lemma_wf();
            assert(node_ok(program.spec_nodes(), program.spec_inputs(), id as int, utf16_len(program.spec_source())));
        }
        let span = program.node_at(id).span;
        let ghost s0 = *self;
        match self.checkpoint(span) {
            Ok(()) => {}
            Err(d) => {
                proof { lemma_cut_none(s0.events@, s0.used_at(id as int, depth as int).1); }
                return Err(d);
            }
        }
        self.steps = self.steps + 1;
        let ghost text = s0.options.max_trace_text_units as nat;
        let ghost c0 = s0.counters();
        proof {
            assert(self.events@ =~= s0.events@ + Seq::<StepModel>::empty());
            assert(self.counters() == entry(c0));
        }
        if self.steps > self.limits.max_steps {
            proof { lemma_used_entry(program.spec_nodes(), s0.vals(), s0.limits, text, id as int, depth as int, c0); }
            return Err(Diagnostic::new("STEP_LIMIT", String::from_str("Execution step budget exceeded."), span));
        }
        if depth > self.limits.max_depth {
            proof { lemma_used_entry(program.spec_nodes(), s0.vals(), s0.limits, text, id as int, depth as int, c0); }
            return Err(Diagnostic::new("DEPTH_LIMIT", String::from_str("Execution depth budget exceeded."), span));
        }
        proof { assert(self.run_at(id as int) == s0.run_at(id as int)); }
        match &program.node_at(id).kind {
            NodeKind::Input(index) => {
                let v = self.values[*index].duplicate();
                let r = self.note(observer, "input", "input", span, Some(v.duplicate()));
                proof {
                    assert(self.vals()[*index as int] == v@);
                    lemma_used_leaf(program.spec_nodes(), s0.vals(), s0.limits, text, id as int, depth as int, c0,
                        event("input", "input", span, Some(v@)));
                    let x = s0.run_at(id as int).unwrap();
                    assert(x.trace =~= seq![event("input", "input", span, Some(v@))]);
                    lemma_units_push(Seq::empty(), event("input", "input", span, Some(v@)));
                    assert(seq![event("input", "input", span, Some(v@))] =~= Seq::<StepModel>::empty().push(event("input", "input", span, Some(v@))));
                    let ee = event("input", "input", span, Some(v@));
                    let t = s0.used_at(id as int, depth as int).1;
                    let pushed = self.events@ != s0.events@;
                    lemma_prefix_self(t, Seq::empty());
                    if pushed && emit_stop(s0.limits, text, entry(c0), ee) is None {
                        assert(t =~= Seq::<StepModel>::empty().push(ee));
                        assert(s0.events@.push(ee) =~= s0.events@ + Seq::<StepModel>::empty().push(ee));
                    }
                    assert(s0.events@ + Seq::<StepModel>::empty() =~= s0.events@);
                    if pushed && emit_stop(s0.limits, text, entry(c0), ee) is None {
                        lemma_cut_either(s0.events@, self.events@, Seq::empty(), ee, true, t);
                    } else if !pushed {
                        lemma_cut_either(s0.events@, self.events@, Seq::empty(), ee, false, t);
                    }
                }
                match r {
                    Ok(()) => Ok(v),
                    Err(d) => Err(d),
                }
            }
            NodeKind::Literal(value) => {
                let v = value.duplicate();
                let r = self.note(observer, "literal", "literal", span, Some(v.duplicate()));
                proof {
                    lemma_used_leaf(program.spec_nodes(), s0.vals(), s0.limits, text, id as int, depth as int, c0,
                        event("literal", "literal", span, Some(v@)));
                    let x = s0.run_at(id as int).unwrap();
                    assert(x.trace =~= seq![event("literal", "literal", span, Some(v@))]);
                    lemma_units_push(Seq::empty(), event("literal", "literal", span, Some(v@)));
                    assert(seq![event("literal", "literal", span, Some(v@))] =~= Seq::<StepModel>::empty().push(event("literal", "literal", span, Some(v@))));
                    let ee = event("literal", "literal", span, Some(v@));
                    let t = s0.used_at(id as int, depth as int).1;
                    let pushed = self.events@ != s0.events@;
                    lemma_prefix_self(t, Seq::empty());
                    if pushed && emit_stop(s0.limits, text, entry(c0), ee) is None {
                        assert(t =~= Seq::<StepModel>::empty().push(ee));
                        assert(s0.events@.push(ee) =~= s0.events@ + Seq::<StepModel>::empty().push(ee));
                    }
                    assert(s0.events@ + Seq::<StepModel>::empty() =~= s0.events@);
                    if pushed && emit_stop(s0.limits, text, entry(c0), ee) is None {
                        lemma_cut_either(s0.events@, self.events@, Seq::empty(), ee, true, t);
                    } else if !pushed {
                        lemma_cut_either(s0.events@, self.events@, Seq::empty(), ee, false, t);
                    }
                }
                match r {
                    Ok(()) => Ok(v),
                    Err(d) => Err(d),
                }
            }
            NodeKind::Unary(op, child) => self.eval_unary(observer, id, depth, *op, *child, span, Ghost(s0)),
            NodeKind::Binary(op, left, right) => self.eval_binary(observer, id, depth, *op, *left, *right, span, Ghost(s0)),
            NodeKind::If(cond, yes, no) => self.eval_if(observer, id, depth, *cond, *yes, *no, span, Ghost(s0)),
        }
    }
}


impl<'a> Executor<'a> {
    /// The state after entering node `id` from `s0`: one more step, budgets checked.
    spec fn entered(&self, s0: &Self, id: int, depth: int, span: Span) -> bool {
        &&& self.same(s0)
        &&& self.steps == s0.steps + 1
        &&& self.emitted == s0.emitted
        &&& self.units == s0.units
        &&& self.trace@ == s0.trace@
        &&& self.events@ == s0.events@
        &&& self.steps <= self.limits.max_steps
        &&& 1 <= depth <= self.limits.max_depth
        &&& 0 <= id < self.program.spec_nodes().len()
        &&& span == self.program.spec_nodes()[id].span
    }

    fn eval_unary<O: Observer>(&mut self, observer: &mut O, id: usize, depth: usize, op: Op, child: usize,
        span: Span, Ghost(s0): Ghost<Self>) -> (r: Result<Value, Diagnostic>)
        requires
            old(self).inv(&*old(observer)), !old(self).halted@,
            old(self).entered(&s0, id as int, depth as int, span),
            old(self).program.spec_nodes()[id as int].kind == NodeKind::Unary(op, child),
        ensures
            final(self).inv(&*final(observer)), final(self).same(&s0), final(observer).host() == old(observer).host(),
            final(self).outcome(&s0, id as int, depth as int, r),
        decreases id, 1int,
    {
        let program = self.program;
        let ghost nodes = program.spec_nodes();
        let ghost units = utf16_len(program.spec_source());
        proof {
            program.lemma_wf();
            assert(node_ok(nodes, program.spec_inputs(), id as int, units));
        }
        let ghost s1 = *self;
        let ghost text = s0.options.max_trace_text_units as nat;
        let ghost c0 = s0.counters();
        let v = match self.eval(observer, child, depth + 1) {
            Ok(v) => v,
            Err(d) => {
                proof {
                    if !(d.code == "CANCELLED" && !s0.quiet@) {
                        lemma_used_first_stops(nodes, s0.vals(), s0.limits, text, id as int, depth as int, c0, child);
                    }
                    if d.code == "CANCELLED" {
                        lemma_used_first_prefix(nodes, s0.vals(), s0.limits, text, id as int, depth as int, c0, child);
                        lemma_cut_mono(s0.events@, self.events@, s1.used_at(child as int, depth + 1).1, s0.used_at(id as int, depth as int).1);
                    }
                    if s0.run_at(id as int) is Some {
                        let x = s0.run_at(id as int).unwrap();
                        let yy = s1.run_at(child as int).unwrap();
                        lemma_units_push(yy.trace, event("unary", op.spec_label(), span, Some(x.value)));
                    }
                }
                return Err(d);
            }
        };
        let ghost y = s1.run_at(child as int).unwrap();
        proof {
            lemma_run_type(nodes, program.spec_inputs(), self.vals(), child as int, units);
            lemma_used_unary(nodes, s0.vals(), s0.limits, text, id as int, depth as int, c0, op, child, y);
            assert(y.trace + Seq::<StepModel>::empty() =~= y.trace);
        }
        let result = if op == Op::Neg {
            match v {
                Value::Int(n) => {
                    match Self::checked(0i64.checked_sub(n), span) {
                        Ok(x) => x,
                        Err(d) => { return Err(d); }
                    }
                }
                _ => { assert(false); return Err(Diagnostic::new("TYPE_ERROR", String::from_str("Expected Int."), span)); }
            }
        } else {
            match v {
                Value::Bool(b) => Value::Bool(!b),
                _ => { assert(false); return Err(Diagnostic::new("TYPE_ERROR", String::from_str("Expected Bool."), span)); }
            }
        };
        let ghost e = event("unary", op.spec_label(), span, Some(result@));
        let ghost s2 = *self;
        proof { lemma_units_push(y.trace, e); }
        match self.note(observer, "unary", op.label(), span, Some(result.duplicate())) {
            Ok(()) => {}
            Err(d) => {
                proof {
                    if d.code == "CANCELLED" {
                        let t = s0.used_at(id as int, depth as int).1;
                        let et = emit_trail(s0.limits, text, after(entry(c0), y), e);
                        assert(t == y.trace + et);
                        lemma_prefix_self(y.trace, et);
                        let pushed = self.events@ != s2.events@;
                        if pushed {
                            assert(et =~= seq![e]);
                            assert(y.trace + seq![e] =~= y.trace.push(e));
                            lemma_prefix_self(t, Seq::empty());
                        }
                        assert(s2.events@ == s0.events@ + y.trace);
                        assert(s2.events@.push(e) =~= s0.events@ + y.trace.push(e));
                        lemma_cut_either(s0.events@, self.events@, y.trace, e, pushed, t);
                    }
                }
                return Err(d);
            }
        }
        proof {
            assert(self.events@ =~= s0.events@ + (y.trace.push(e)));
        }
        Ok(result)
    }

    /// The value of a binary operator on operands of the types it accepts.
    fn combine(op: Op, l: Value, r: Value, span: Span) -> (res: Result<Value, Diagnostic>)
        requires
            op != Op::Neg, op != Op::Not,
            op == Op::And || op == Op::Or ==> r is Bool,
            op != Op::And && op != Op::Or && op != Op::Eq && op != Op::Ne ==> l is Int && r is Int,
            l@ matches ValueModel::Int(x) ==> in_domain(x as int),
            r@ matches ValueModel::Int(y) ==> in_domain(y as int),
        ensures
            (match binary_value(op, l@, r@) {
                Some(v) => res matches Ok(x) && x@ == v,
                None => res matches Err(d) && d.code == "INTEGER_RANGE" && d.span == span,
            }),
    {
        match op {
            Op::Eq => Ok(Value::Bool(l.same(&r))),
            Op::Ne => Ok(Value::Bool(!l.same(&r))),
            Op::And | Op::Or => match r {
                Value::Bool(b) => Ok(Value::Bool(b)),
                _ => { assert(false); Err(Diagnostic::new("TYPE_ERROR", String::from_str("Expected Bool."), span)) }
            },
            _ => {
                let (a, b) = match (l, r) {
                    (Value::Int(a), Value::Int(b)) => (a, b),
                    _ => { assert(false); return Err(Diagnostic::new("TYPE_ERROR", String::from_str("Expected Int."), span)); }
                };
                match op {
                    Op::Add => Self::checked(a.checked_add(b), span),
                    Op::Sub => Self::checked(a.checked_sub(b), span),
                    Op::Mul => Self::checked(a.checked_mul(b), span),
                    Op::Lt => Ok(Value::Bool(a < b)),
                    Op::Le => Ok(Value::Bool(a <= b)),
                    Op::Gt => Ok(Value::Bool(a > b)),
                    Op::Ge => Ok(Value::Bool(a >= b)),
                    _ => { assert(false); Err(Diagnostic::new("UNKNOWN_OPERATOR", String::from_str("Invalid binary operator."), span)) }
                }
            }
        }
    }

    #[verifier::rlimit(40)]
    #[verifier::spinoff_prover]
    fn eval_binary<O: Observer>(&mut self, observer: &mut O, id: usize, depth: usize, op: Op, left: usize, right: usize,
        span: Span, Ghost(s0): Ghost<Self>) -> (r: Result<Value, Diagnostic>)
        requires
            old(self).inv(&*old(observer)), !old(self).halted@,
            old(self).entered(&s0, id as int, depth as int, span),
            old(self).program.spec_nodes()[id as int].kind == NodeKind::Binary(op, left, right),
        ensures
            final(self).inv(&*final(observer)), final(self).same(&s0), final(observer).host() == old(observer).host(),
            final(self).outcome(&s0, id as int, depth as int, r),
        decreases id, 1int,
    {
        let program = self.program;
        let ghost nodes = program.spec_nodes();
        let ghost units = utf16_len(program.spec_source());
        proof {
            program.lemma_wf();
            assert(node_ok(nodes, program.spec_inputs(), id as int, units));
        }
        let ghost s1 = *self;
        let l = match self.eval(observer, left, depth + 1) {
            Ok(v) => v,
            Err(d) => {
                proof {
                    if !(d.code == "CANCELLED" && !s0.quiet@) {
                        lemma_used_first_stops(nodes, s0.vals(), s0.limits, s0.options.max_trace_text_units as nat,
                            id as int, depth as int, s0.counters(), left);
                    }
                    if d.code == "CANCELLED" {
                        lemma_used_first_prefix(nodes, s0.vals(), s0.limits, s0.options.max_trace_text_units as nat,
                            id as int, depth as int, s0.counters(), left);
                        lemma_cut_mono(s0.events@, self.events@, s1.used_at(left as int, depth + 1).1, s0.used_at(id as int, depth as int).1);
                    }
                    if s0.run_at(id as int) is Some {
                        let x = s0.run_at(id as int).unwrap();
                        let yy = s1.run_at(left as int).unwrap();
                        if short_circuits(op, yy.value) {
                            let e1 = event("short-circuit", short_label(op), span, None);
                            lemma_units_push(yy.trace, e1);
                            lemma_units_push(yy.trace.push(e1), event("binary", op.spec_label(), span, Some(yy.value)));
                        } else {
                            let zz = s1.run_at(right as int).unwrap();
                            lemma_trace_units_append(yy.trace, zz.trace);
                            lemma_units_push(yy.trace + zz.trace, event("binary", op.spec_label(), span, Some(x.value)));
                        }
                    }
                }
                return Err(d);
            }
        };
        proof { lemma_run_type(nodes, program.spec_inputs(), self.vals(), left as int, units); }
        let short = match l {
            Value::Bool(b) => (op == Op::And && !b) || (op == Op::Or && b),
            _ => false,
        };
        if short {
            self.binary_short(observer, id, depth, op, left, right, span, l, Ghost(s0), Ghost(s1))
        } else {
            self.binary_full(observer, id, depth, op, left, right, span, l, Ghost(s0), Ghost(s1))
        }
    }

    /// A binary node whose left operand `l` decides it.
    #[verifier::rlimit(40)]
    #[verifier::spinoff_prover]
    fn binary_short<O: Observer>(&mut self, observer: &mut O, id: usize, depth: usize, op: Op, left: usize, right: usize,
        span: Span, l: Value, Ghost(s0): Ghost<Self>, Ghost(s1): Ghost<Self>) -> (r: Result<Value, Diagnostic>)
        requires
            old(self).inv(&*old(observer)), !old(self).halted@,
            s1.entered(&s0, id as int, depth as int, span),
            s1.program.spec_nodes()[id as int].kind == NodeKind::Binary(op, left, right),
            s1.run_at(left as int) matches Some(y) && l@ == y.value && old(self).completed(&s1, y, depth + 1),
            s1.stop_at(left as int, depth + 1) is None,
            old(self).same(&s1),
            short_circuits(op, l@),
        ensures
            final(self).inv(&*final(observer)), final(self).same(&s0), final(observer).host() == old(observer).host(),
            final(self).outcome(&s0, id as int, depth as int, r),
        decreases id, 0int,
    {
        let ghost y = s1.run_at(left as int).unwrap();
        let label = if op == Op::And { "and: right operand not evaluated" } else { "or: right operand not evaluated" };
        let ghost e1 = event("short-circuit", short_label(op), span, None);
        let ghost e2 = event("binary", op.spec_label(), span, Some(l@));
        proof {
            lemma_units_push(y.trace, e1);
            lemma_units_push(y.trace.push(e1), e2);
            assert(y.trace + seq![e1] =~= y.trace.push(e1));
            assert(y.trace + Seq::<StepModel>::empty() =~= y.trace);
        }
        let ghost s2 = *self;
        let ghost text = s0.options.max_trace_text_units as nat;
        proof {
            s0.program.lemma_wf();
            assert(node_ok(s0.program.spec_nodes(), s0.program.spec_inputs(), id as int, utf16_len(s0.program.spec_source())));
            assert(s2.counters() == after(entry(s0.counters()), y));
            lemma_used_short(s0.program.spec_nodes(), s0.vals(), s0.limits, text, id as int, depth as int, s0.counters(),
                op, left, right, y);
        }
        match self.note(observer, "short-circuit", label, span, None) {
            Ok(()) => {}
            Err(d) => {
                proof {
                    if !(d.code == "CANCELLED" && !s0.quiet@) {
                        assert(emit_stop(s0.limits, text, s2.counters(), e1) is Some);
                        assert(emit_two_trail(s0.limits, text, s2.counters(), e1, e2) =~= Seq::<StepModel>::empty());
                        assert(s0.used_at(id as int, depth as int) == (1 + y.steps, y.trace));
                        assert(self.spent(&s0, s0.used_at(id as int, depth as int)));
                    }
                    if d.code == "CANCELLED" {
                        let t = s0.used_at(id as int, depth as int).1;
                        let two = emit_two_trail(s0.limits, text, s2.counters(), e1, e2);
                        assert(t == y.trace + two);
                        lemma_prefix_self(y.trace, two);
                        let pushed = self.events@ != s2.events@;
                        if pushed {
                            let rest = emit_trail(s0.limits, text, bump(s2.counters(), e1), e2);
                            assert(two == seq![e1] + rest);
                            assert(t =~= y.trace.push(e1) + rest);
                            lemma_prefix_self(y.trace.push(e1), rest);
                        }
                        assert(s2.events@.push(e1) =~= s0.events@ + y.trace.push(e1));
                        lemma_cut_either(s0.events@, self.events@, y.trace, e1, pushed, t);
                    }
                }
                return Err(d);
            }
        }
        proof {
            assert(y.trace + (seq![e1] + Seq::<StepModel>::empty()) =~= y.trace.push(e1));
            assert(self.counters() == bump(s2.counters(), e1));
        }
        match self.note(observer, "binary", op.label(), span, Some(l.duplicate())) {
            Ok(()) => {}
            Err(d) => {
                proof {
                    if !(d.code == "CANCELLED" && !s0.quiet@) {
                        assert(emit_stop(s0.limits, text, bump(s2.counters(), e1), e2) is Some);
                        assert(emit_two_trail(s0.limits, text, s2.counters(), e1, e2) =~= seq![e1]);
                        assert(s0.used_at(id as int, depth as int) == (1 + y.steps, y.trace + seq![e1]));
                        assert(trace_units(y.trace + seq![e1]) == trace_units(y.trace) + step_units(e1));
                        assert(self.events@ =~= s0.events@ + (y.trace + seq![e1]));
                        assert(self.spent(&s0, s0.used_at(id as int, depth as int)));
                    }
                    if d.code == "CANCELLED" {
                        let t = s0.used_at(id as int, depth as int).1;
                        let rest = emit_trail(s0.limits, text, bump(s2.counters(), e1), e2);
                        assert(t =~= y.trace.push(e1) + rest);
                        lemma_prefix_self(y.trace.push(e1), rest);
                        let pushed = self.events@ != s0.events@ + y.trace.push(e1);
                        if pushed {
                            assert(rest =~= seq![e2]);
                            assert(t =~= y.trace.push(e1).push(e2));
                            lemma_prefix_self(t, Seq::empty());
                        }
                        assert((s0.events@ + y.trace.push(e1)).push(e2) =~= s0.events@ + y.trace.push(e1).push(e2));
                        lemma_cut_either(s0.events@, self.events@, y.trace.push(e1), e2, pushed, t);
                    }
                }
                return Err(d);
            }
        }
        proof {
            assert(self.events@ =~= s0.events@ + (y.trace.push(e1).push(e2)));
        }
        Ok(l)
    }

    /// A binary node that evaluates its right operand, after its left operand `l`.
    #[verifier::rlimit(100)]
    #[verifier::spinoff_prover]
    fn binary_full<O: Observer>(&mut self, observer: &mut O, id: usize, depth: usize, op: Op, left: usize, right: usize,
        span: Span, l: Value, Ghost(s0): Ghost<Self>, Ghost(s1): Ghost<Self>) -> (r: Result<Value, Diagnostic>)
        requires
            old(self).inv(&*old(observer)), !old(self).halted@,
            s1.entered(&s0, id as int, depth as int, span),
            s1.program.spec_nodes()[id as int].kind == NodeKind::Binary(op, left, right),
            s1.run_at(left as int) matches Some(y) && l@ == y.value && old(self).completed(&s1, y, depth + 1),
            s1.stop_at(left as int, depth + 1) is None,
            old(self).same(&s1),
            !short_circuits(op, l@),
            model_type(l@) == s1.program.spec_nodes()[left as int].ty,
            l@ matches ValueModel::Int(x) ==> in_domain(x as int),
        ensures
            final(self).inv(&*final(observer)), final(self).same(&s0), final(observer).host() == old(observer).host(),
            final(self).outcome(&s0, id as int, depth as int, r),
        decreases id, 0int,
    {
        let program = self.program;
        let ghost nodes = program.spec_nodes();
        let ghost units = utf16_len(program.spec_source());
        proof {
            program.lemma_wf();
            assert(node_ok(nodes, program.spec_inputs(), id as int, units));
        }
        let ghost y = s1.run_at(left as int).unwrap();
        let ghost s2 = *self;
        let ghost text = s0.options.max_trace_text_units as nat;
        proof { assert(s2.counters() == after(entry(s0.counters()), y)); }
        let r = match self.eval(observer, right, depth + 1) {
            Ok(v) => v,
            Err(d) => {
                proof {
                    if !(d.code == "CANCELLED" && !s0.quiet@) {
                        lemma_used_right_stops(nodes, s0.vals(), s0.limits, text, id as int, depth as int, s0.counters(),
                            op, left, right, y);
                    }
                    if s0.run_at(id as int) is Some {
                        let x = s0.run_at(id as int).unwrap();
                        let zz = s2.run_at(right as int).unwrap();
                        lemma_trace_units_append(y.trace, zz.trace);
                        lemma_units_push(y.trace + zz.trace, event("binary", op.spec_label(), span, Some(x.value)));
                    }
                    if !(d.code == "CANCELLED" && !s0.quiet@) {
                        let u = s2.used_at(right as int, depth + 1);
                        lemma_trace_units_append(y.trace, u.1);
                        assert(self.events@ =~= s0.events@ + (y.trace + u.1));
                    }
                    if d.code == "CANCELLED" {
                        lemma_binary_right_cut(nodes, s0.vals(), s0.limits, text, id as int, depth as int, s0.counters(),
                            op, left, right, y, s0.events@, self.events@);
                    }
                }
                return Err(d);
            }
        };
        let ghost z = s2.run_at(right as int).unwrap();
        proof {
            lemma_run_type(nodes, program.spec_inputs(), self.vals(), right as int, units);
            lemma_used_binary(nodes, s0.vals(), s0.limits, text, id as int, depth as int, s0.counters(),
                op, left, right, y, z);
            lemma_trace_units_append(y.trace, z.trace);
            assert(self.events@ =~= s0.events@ + (y.trace + z.trace));
        }
        let result = match Self::combine(op, l, r, span) {
            Ok(x) => x,
            Err(d) => { return Err(d); }
        };
        let ghost e = event("binary", op.spec_label(), span, Some(result@));
        proof {
            lemma_units_push(y.trace + z.trace, e);
            assert(y.trace + z.trace + seq![e] =~= (y.trace + z.trace).push(e));
            assert(y.trace + z.trace + Seq::<StepModel>::empty() =~= y.trace + z.trace);
        }
        let ghost s3 = *self;
        match self.note(observer, "binary", op.label(), span, Some(result.duplicate())) {
            Ok(()) => {}
            Err(d) => {
                proof {
                    if d.code == "CANCELLED" {
                        let et = emit_trail(s0.limits, text, after(after(entry(s0.counters()), y), z), e);
                        let pushed = self.events@ != s3.events@;
                        assert(s0.used_at(id as int, depth as int).1 == y.trace + z.trace + et);
                        lemma_note_cut(s0.events@, y.trace + z.trace, e, et, s0.used_at(id as int, depth as int).1,
                            self.events@, pushed);
                    }
                }
                return Err(d);
            }
        }
        proof {
            assert(self.events@ =~= s0.events@ + ((y.trace + z.trace).push(e)));
        }
        Ok(result)
    }

    #[verifier::rlimit(100)]
    #[verifier::spinoff_prover]
    fn eval_if<O: Observer>(&mut self, observer: &mut O, id: usize, depth: usize, cond: usize, yes: usize, no: usize,
        span: Span, Ghost(s0): Ghost<Self>) -> (r: Result<Value, Diagnostic>)
        requires
            old(self).inv(&*old(observer)), !old(self).halted@,
            old(self).entered(&s0, id as int, depth as int, span),
            old(self).program.spec_nodes()[id as int].kind == NodeKind::If(cond, yes, no),
        ensures
            final(self).inv(&*final(observer)), final(self).same(&s0), final(observer).host() == old(observer).host(),
            final(self).outcome(&s0, id as int, depth as int, r),
        decreases id, 2int,
    {
        let program = self.program;
        let ghost nodes = program.spec_nodes();
        let ghost units = utf16_len(program.spec_source());
        proof {
            program.lemma_wf();
            assert(node_ok(nodes, program.spec_inputs(), id as int, units));
        }
        let ghost s1 = *self;
        let ghost text = s0.options.max_trace_text_units as nat;
        let c = match self.eval(observer, cond, depth + 1) {
            Ok(v) => v,
            Err(d) => {
                proof {
                    if !(d.code == "CANCELLED" && !s0.quiet@) {
                        lemma_used_first_stops(nodes, s0.vals(), s0.limits, text, id as int, depth as int, s0.counters(), cond);
                    }
                    if d.code == "CANCELLED" {
                        lemma_used_first_prefix(nodes, s0.vals(), s0.limits, text, id as int, depth as int, s0.counters(), cond);
                        lemma_cut_mono(s0.events@, self.events@, s1.used_at(cond as int, depth + 1).1, s0.used_at(id as int, depth as int).1);
                    }
                    if s0.run_at(id as int) is Some {
                        let x = s0.run_at(id as int).unwrap();
                        let yy = s1.run_at(cond as int).unwrap();
                        let b = yy.value->Bool_0;
                        let ee1 = event("branch", if b { "then branch selected" } else { "else branch selected" }, span, Some(ValueModel::Bool(b)));
                        let zz = s1.run_at((if b { yes } else { no }) as int).unwrap();
                        lemma_units_push(yy.trace, ee1);
                        lemma_trace_units_append(yy.trace.push(ee1), zz.trace);
                        lemma_units_push(yy.trace.push(ee1) + zz.trace, event("if", "if", span, Some(x.value)));
                    }
                }
                return Err(d);
            }
        };
        proof { lemma_run_type(nodes, program.spec_inputs(), self.vals(), cond as int, units); }
        let decision = match c {
            Value::Bool(b) => b,
            _ => { assert(false); return Err(Diagnostic::new("TYPE_ERROR", String::from_str("Expected Bool."), span)); }
        };
        self.if_branch(observer, id, depth, cond, yes, no, span, decision, Ghost(s0), Ghost(s1))
    }

    /// An `if` node whose condition evaluated to `decision`: announces the branch, then
    /// evaluates it.
    #[verifier::rlimit(100)]
    #[verifier::spinoff_prover]
    fn if_branch<O: Observer>(&mut self, observer: &mut O, id: usize, depth: usize, cond: usize, yes: usize, no: usize,
        span: Span, decision: bool, Ghost(s0): Ghost<Self>, Ghost(s1): Ghost<Self>) -> (r: Result<Value, Diagnostic>)
        requires
            old(self).inv(&*old(observer)), !old(self).halted@,
            s1.entered(&s0, id as int, depth as int, span),
            s1.program.spec_nodes()[id as int].kind == NodeKind::If(cond, yes, no),
            s1.run_at(cond as int) matches Some(y) && y.value == ValueModel::Bool(decision)
                && old(self).completed(&s1, y, depth + 1),
            s1.stop_at(cond as int, depth + 1) is None,
            old(self).same(&s1),
        ensures
            final(self).inv(&*final(observer)), final(self).same(&s0), final(observer).host() == old(observer).host(),
            final(self).outcome(&s0, id as int, depth as int, r),
        decreases id, 1int,
    {
        let program = self.program;
        let ghost nodes = program.spec_nodes();
        let ghost units = utf16_len(program.spec_source());
        let ghost text = s0.options.max_trace_text_units as nat;
        proof {
            program.lemma_wf();
            assert(node_ok(nodes, program.spec_inputs(), id as int, units));
        }
        let ghost y = s1.run_at(cond as int).unwrap();
        let label = if decision { "then branch selected" } else { "else branch selected" };
        let ghost e1 = event("branch", label, span, Some(ValueModel::Bool(decision)));
        proof {
            lemma_units_push(y.trace, e1);
            assert(self.counters() == after(entry(s0.counters()), y));
            lemma_used_if(nodes, s0.vals(), s0.limits, text, id as int, depth as int, s0.counters(), cond, yes, no, y, decision);
            assert(y.trace + seq![e1] =~= y.trace.push(e1));
        }
        let ghost s2 = *self;
        match self.note(observer, "branch", label, span, Some(Value::Bool(decision))) {
            Ok(()) => {}
            Err(d) => {
                proof {
                    if d.code == "CANCELLED" {
                        let t = s0.used_at(id as int, depth as int).1;
                        lemma_first_prefix_if(nodes, s0.vals(), s0.limits, text, id as int, depth as int, s0.counters(),
                            cond, yes, no, y);
                        let pushed = self.events@ != s2.events@;
                        if pushed {
                            lemma_if_branch_prefix(nodes, s0.vals(), s0.limits, text, id as int, depth as int, s0.counters(),
                                cond, yes, no, y, decision);
                            let u = used(nodes, s0.vals(), s0.limits, text, (if decision { yes } else { no }) as int, depth + 1,
                                bump(after(entry(s0.counters()), y), e1));
                            lemma_prefix_self(y.trace.push(e1), u.1);
                            lemma_prefix_trans(y.trace.push(e1), y.trace.push(e1) + u.1, t);
                        }
                        assert(s2.events@.push(e1) =~= s0.events@ + y.trace.push(e1));
                        lemma_cut_either(s0.events@, self.events@, y.trace, e1, pushed, t);
                    }
                    if s0.run_at(id as int) is Some {
                        let x = s0.run_at(id as int).unwrap();
                        let zz = s1.run_at((if decision { yes } else { no }) as int).unwrap();
                        lemma_trace_units_append(y.trace.push(e1), zz.trace);
                        lemma_units_push(y.trace.push(e1) + zz.trace, event("if", "if", span, Some(x.value)));
                    }
                }
                return Err(d);
            }
        }
        proof {
            assert(self.events@ =~= s0.events@ + (y.trace.push(e1)));
        }
        self.if_chosen(observer, id, depth, cond, yes, no, span, decision, Ghost(s0), Ghost(s1))
    }

    /// An `if` node after its branch was announced: evaluates the chosen branch and
    /// reports the node's value.
    #[verifier::rlimit(100)]
    #[verifier::spinoff_prover]
    fn if_chosen<O: Observer>(&mut self, observer: &mut O, id: usize, depth: usize, cond: usize, yes: usize, no: usize,
        span: Span, decision: bool, Ghost(s0): Ghost<Self>, Ghost(s1): Ghost<Self>) -> (r: Result<Value, Diagnostic>)
        requires
            old(self).inv(&*old(observer)), !old(self).halted@,
            s1.entered(&s0, id as int, depth as int, span),
            s1.program.spec_nodes()[id as int].kind == NodeKind::If(cond, yes, no),
            s1.run_at(cond as int) matches Some(y) && y.value == ValueModel::Bool(decision)
                && s1.room(y, depth + 1) && ({
                    let e1 = event("branch", if decision { "then branch selected" } else { "else branch selected" },
                        span, Some(ValueModel::Bool(decision)));
                    &&& emit_stop(s0.limits, s0.options.max_trace_text_units as nat, after(entry(s0.counters()), y), e1) is None
                    &&& old(self).counters() == bump(after(entry(s0.counters()), y), e1)
                    &&& old(self).events@ == s0.events@ + (y.trace.push(e1))
                }),
            s1.stop_at(cond as int, depth + 1) is None,
            old(self).same(&s1),
        ensures
            final(self).inv(&*final(observer)), final(self).same(&s0), final(observer).host() == old(observer).host(),
            final(self).outcome(&s0, id as int, depth as int, r),
        decreases id, 0int,
    {
        let program = self.program;
        let ghost nodes = program.spec_nodes();
        let ghost units = utf16_len(program.spec_source());
        let ghost text = s0.options.max_trace_text_units as nat;
        proof {
            program.lemma_wf();
            assert(node_ok(nodes, program.spec_inputs(), id as int, units));
        }
        let ghost y = s1.run_at(cond as int).unwrap();
        let ghost e1 = event("branch", if decision { "then branch selected" } else { "else branch selected" },
            span, Some(ValueModel::Bool(decision)));
        proof {
            lemma_units_push(y.trace, e1);
            lemma_used_if(nodes, s0.vals(), s0.limits, text, id as int, depth as int, s0.counters(), cond, yes, no, y, decision);
        }
        let chosen = if decision { yes } else { no };
        let ghost s2 = *self;
        let v = match self.eval(observer, chosen, depth + 1) {
            Ok(v) => v,
            Err(d) => {
                proof {
                    if !(d.code == "CANCELLED" && !s0.quiet@) {
                        let u = s2.used_at(chosen as int, depth + 1);
                        lemma_trace_units_append(y.trace.push(e1), u.1);
                        assert(self.events@ =~= s0.events@ + (y.trace.push(e1) + u.1));
                    }
                    if d.code == "CANCELLED" {
                        lemma_if_branch_prefix(nodes, s0.vals(), s0.limits, text, id as int, depth as int, s0.counters(),
                            cond, yes, no, y, decision);
                        assert(s2.counters() == bump(after(entry(s0.counters()), y), e1));
                        lemma_cut_shift(s0.events@, y.trace.push(e1), self.events@, s2.used_at(chosen as int, depth + 1).1,
                            s0.used_at(id as int, depth as int).1);
                    }
                    if s0.run_at(id as int) is Some {
                        let x = s0.run_at(id as int).unwrap();
                        let zz = s2.run_at(chosen as int).unwrap();
                        lemma_trace_units_append(y.trace.push(e1), zz.trace);
                        lemma_units_push(y.trace.push(e1) + zz.trace, event("if", "if", span, Some(x.value)));
                    }
                }
                return Err(d);
            }
        };
        let ghost z = s2.run_at(chosen as int).unwrap();
        let ghost e2 = event("if", "if", span, Some(v@));
        proof {
            lemma_trace_units_append(y.trace.push(e1), z.trace);
            lemma_units_push(y.trace.push(e1) + z.trace, e2);
            assert(y.trace.push(e1) + z.trace + Seq::<StepModel>::empty() =~= y.trace.push(e1) + z.trace);
            assert(self.events@ =~= s0.events@ + (y.trace.push(e1) + z.trace));
        }
        let ghost s3 = *self;
        match self.note(observer, "if", "if", span, Some(v.duplicate())) {
            Ok(()) => {}
            Err(d) => {
                proof {
                    if d.code == "CANCELLED" {
                        let c3 = after(bump(after(entry(s0.counters()), y), e1), z);
                        let et = emit_trail(s0.limits, text, c3, e2);
                        let pushed = self.events@ != s3.events@;
                        assert(s0.used_at(id as int, depth as int).1 == y.trace.push(e1) + z.trace + et);
                        lemma_note_cut(s0.events@, y.trace.push(e1) + z.trace, e2, et, s0.used_at(id as int, depth as int).1,
                            self.events@, pushed);
                    }
                    if !(d.code == "CANCELLED" && !s0.quiet@) {
                        let c3 = after(bump(after(entry(s0.counters()), y), e1), z);
                        assert(emit_stop(s0.limits, text, c3, e2) is Some);
                        assert(emit_trail(s0.limits, text, c3, e2) =~= Seq::<StepModel>::empty());
                        assert(s0.used_at(id as int, depth as int) == (1 + y.steps + z.steps, y.trace.push(e1) + z.trace));
                        assert(self.spent(&s0, s0.used_at(id as int, depth as int)));
                    }
                }
                return Err(d);
            }
        }
        proof {
            assert(self.events@ =~= s0.events@ + ((y.trace.push(e1) + z.trace).push(e2)));
        }
        Ok(v)
    }
}


/// Runs `program` on `bindings`: validates budgets and bindings, then evaluates the root.
#[verifier::rlimit(40)]
#[verifier::spinoff_prover]
pub(crate) fn evaluate_with<O: Observer>(program: &CompiledExpression, bindings: &InputBindings, limits: Limits,
    options: ObservationOptions, cancellation: Option<&CancellationToken>, observer: &mut O) -> (r: ObservedOutcome)
    requires old(observer).ready(),
    ensures
        final(observer).ready(),
        observed_ok(*program, *bindings, limits, options, r),
        final(observer).seen() == old(observer).seen() + r.emitted_events,
        final(observer).bounds() == old(observer).bounds(),
        final(observer).seen_units() == old(observer).seen_units() + r.observed_text_units,
        old(observer).quiet() && cancellation is None ==> not_cancelled(r.outcome),
        options.retain_trace ==> r.observed_text_units == trace_units(trace_view(r.outcome.trace@)),
        final(observer).host() == old(observer).host(),
        shown_ok(old(observer).log(), final(observer).log(),
            delivered(*program, resolve_problem(program.spec_inputs(), *bindings),
                program_values(program.spec_inputs(), *bindings), limits, options), r),
{
    if !(limits.max_steps >= 1 && limits.max_steps <= 1_000_000 && limits.max_depth >= 1 && limits.max_depth <= MAX_DEPTH
        && limits.max_trace >= 1 && limits.max_trace <= 1_000_000) {
        let d = Diagnostic::new("INVALID_LIMIT", String::from_str("Limits must be positive; depth <= 128, steps/trace <= 1000000."), program.span());
        let r = ObservedOutcome { outcome: Outcome { result: Err(d), trace: Vec::new(), steps: 0 },
            options, emitted_events: 0, observed_text_units: 0 };
        proof { lemma_nothing_shown(observer.log(), r); }
        return r;
    }
    let values = match resolve(program.inputs(), bindings) {
        Ok(values) => values,
        Err(error) => {
            let r = ObservedOutcome { outcome: Outcome { result: Err(error), trace: Vec::new(), steps: 0 },
                options, emitted_events: 0, observed_text_units: 0 };
            proof {
                crate::inputs::lemma_problem_codes(program.spec_inputs(), *bindings);
                lemma_nothing_shown(observer.log(), r);
            }
            return r;
        }
    };
    proof { use_type_invariant(program); program.lemma_wf(); }
    let ghost quiet = observer.quiet() && cancellation is None;
    let mut ex = Executor { program, values, limits, options, cancellation, trace: Vec::new(),
        steps: 0, emitted: 0, units: 0, quiet: Ghost(quiet), seen0: Ghost(observer.seen()),
        units0: Ghost(observer.seen_units()), halted: Ghost(false), bounds0: Ghost(observer.bounds()),
        events: Ghost(Seq::empty()), log0: Ghost(observer.log()), shown: Ghost(Seq::empty()) };
    proof {
        assert(ex.vals() =~= program_values(program.spec_inputs(), *bindings));
        assert(trace_view(ex.trace@) =~= Seq::<StepModel>::empty());
        assert(ex.log0@ + ex.shown@ =~= ex.log0@);
    }
    let ghost s0 = ex;
    let result = ex.eval(observer, program.root_index(), 1);
    proof {
        assert(trace_view(s0.trace@) =~= Seq::<StepModel>::empty());
        if let Ok(_) = result {
            let x = s0.run_at(program.spec_root()).unwrap();
            assert(ex.events@ =~= x.trace);
        }
        if result is Err && result->Err_0.code != "CANCELLED" {
            {
                let u = s0.used_at(program.spec_root(), 1);
                assert(s0.counters() == Counters { steps: 0, emitted: 0, units: 0 });
                assert(u == program_used(*program, ex.vals(), limits, options.max_trace_text_units as nat));
                assert(ex.events@ =~= u.1);
            }
        }
    }
    let r = ObservedOutcome { outcome: Outcome { result, trace: ex.trace, steps: ex.steps },
        options, emitted_events: ex.emitted, observed_text_units: ex.units };
    proof {
        let d = delivered(*program, resolve_problem(program.spec_inputs(), *bindings),
            program_values(program.spec_inputs(), *bindings), limits, options);
        let u = s0.used_at(program.spec_root(), 1);
        assert(s0.counters() == Counters { steps: 0, emitted: 0, units: 0 });
        assert(u == program_used(*program, ex.vals(), limits, options.max_trace_text_units as nat));
        assert(ex.events@ == d.subrange(0, ex.emitted as int) && ex.emitted <= d.len()
            && (not_cancelled(r.outcome) ==> ex.emitted == d.len())) by {
            assert(d == u.1);
            if r.outcome.result is Ok {
                lemma_program_used_complete(*program, ex.vals(), limits, options.max_trace_text_units as nat);
                assert(d =~= ex.events@);
            } else if r.outcome.result->Err_0.code != "CANCELLED" {
                assert(d =~= ex.events@);
            } else {
                let p = choose|p: Seq<StepModel>| #[trigger] prefix_of(p, u.1) && ex.events@ == s0.events@ + p;
                assert(ex.events@ =~= p);
            }
            assert(ex.events@ =~= d.subrange(0, ex.emitted as int));
        }
        lemma_shown(ex.log0@, ex.shown@, ex.events@, d, r);
    }
    r
}

/// Where nothing was emitted, an observer's log is shown nothing.
proof fn lemma_nothing_shown(log: Seq<(StepModel, bool)>, r: ObservedOutcome)
    requires r.emitted_events == 0, r.outcome.trace@.len() == 0,
    ensures shown_ok(log, log, Seq::empty(), r),
{
    assert(log.subrange(0, log.len() as int) =~= log);
    assert(log.subrange(log.len() as int, log.len() as int) =~= Seq::<(StepModel, bool)>::empty());
    assert(trace_view(r.outcome.trace@) =~= Seq::<StepModel>::empty().subrange(0, 0));
}

/// A log made of what came before and one entry per emitted event, each entry the event
/// delivered at its place, shows what `events_shown` asks.
proof fn lemma_shown(log0: Seq<(StepModel, bool)>, shown: Seq<(StepModel, bool)>, events: Seq<StepModel>,
    d: Seq<StepModel>, r: ObservedOutcome)
    requires
        shown.len() == events.len(), events.len() == r.emitted_events, events.len() <= d.len(),
        events == d.subrange(0, events.len() as int),
        forall|k: int| 0 <= k < shown.len() ==> (#[trigger] shown[k]).0 == events[k],
        forall|k: int| 0 <= k < shown.len() && !(#[trigger] shown[k]).1 ==> (k == shown.len() - 1 && !not_cancelled(r.outcome)),
        not_cancelled(r.outcome) ==> events.len() == d.len(),
        r.options.retain_trace ==> trace_view(r.outcome.trace@) == events,
    ensures shown_ok(log0, log0 + shown, d, r),
{
    let after = log0 + shown;
    assert(after.subrange(0, log0.len() as int) =~= log0);
    assert(after.subrange(log0.len() as int, after.len() as int) =~= shown);
    assert forall|k: int| 0 <= k < shown.len() implies (#[trigger] shown[k]).0 == d[k] by {
        assert(events[k] == d.subrange(0, events.len() as int)[k]);
    }
}

/// Refusal and values of empty bindings.
proof fn lemma_unbound(inputs: Seq<InputSpec>, b: InputBindings)
    requires b.keys().len() == 0,
    ensures
        resolve_problem(inputs, b) == unbound_problem(inputs),
        inputs.len() == 0 ==> program_values(inputs, b) == Seq::<ValueModel>::empty(),
{
    assert(!has_undeclared(inputs, b));
    if inputs.len() > 0 {
        assert(!b.has(inputs[0].id@));
    }
    assert(program_values(inputs, b).len() == inputs.len());
    if inputs.len() == 0 {
        assert(program_values(inputs, b) =~= Seq::<ValueModel>::empty());
    }
}

/// Evaluates `program`, which takes no bound values, delivering each event to `observer`
/// as it occurs. The callback is synchronous and trusted host code; it may stop the run,
/// which then reports `CANCELLED`.
pub fn evaluate_observed<F: FnMut(&TraceStep) -> ControlFlow<()>>(
    program: &CompiledExpression,
    limits: Limits,
    options: ObservationOptions,
    cancellation: &CancellationToken,
    observer: F,
) -> (r: ObservedOutcome)
    requires forall|s: &TraceStep| call_requires(observer, (s,)),
    ensures
        r.options == options,
        outcome_ok(*program, unbound_problem(program.spec_inputs()), Seq::empty(), limits, options,
            r.outcome, r.emitted_events as int, r.observed_text_units as int),
        exists|calls: Seq<(TraceStep, ControlFlow<()>)>| answered(observer, calls)
            && #[trigger] events_shown(calls_log(calls),
                delivered(*program, unbound_problem(program.spec_inputs()), Seq::empty(), limits, options), r),
{
    let none = InputBindings::new();
    let r = evaluate_bound_observed(program, &none, limits, options, cancellation, observer);
    proof {
        lemma_unbound(program.spec_inputs(), none);
        let d = delivered(*program, unbound_problem(program.spec_inputs()), Seq::empty(), limits, options);
        assert(delivered(*program, resolve_problem(program.spec_inputs(), none),
            program_values(program.spec_inputs(), none), limits, options) == d);
    }
    r
}

/// Evaluates `program` on `bindings`, delivering each event to `observer` as it occurs.
/// The callback is synchronous and trusted host code; it may stop the run, which then
/// reports `CANCELLED`.
pub fn evaluate_bound_observed<F: FnMut(&TraceStep) -> ControlFlow<()>>(
    program: &CompiledExpression,
    bindings: &InputBindings,
    limits: Limits,
    options: ObservationOptions,
    cancellation: &CancellationToken,
    observer: F,
) -> (r: ObservedOutcome)
    requires forall|s: &TraceStep| call_requires(observer, (s,)),
    ensures
        observed_ok(*program, *bindings, limits, options, r),
        exists|calls: Seq<(TraceStep, ControlFlow<()>)>| answered(observer, calls)
            && #[trigger] events_shown(calls_log(calls),
                delivered(*program, resolve_problem(program.spec_inputs(), *bindings),
                    program_values(program.spec_inputs(), *bindings), limits, options), r),
{
    let mut callback = Callback { f: observer, seen: Ghost(0), seen_units: Ghost(0), halted: Ghost(false),
        calls: Ghost(Seq::empty()) };
    proof { assert(calls_log(callback.calls@) =~= Seq::<(StepModel, bool)>::empty()); }
    let r = evaluate_with(program, bindings, limits, options, Some(cancellation), &mut callback);
    proof {
        let after = calls_log(callback.calls@);
        assert(after.subrange(0, after.len() as int) =~= after);
        assert(answered(observer, callback.calls@));
    }
    r
}

/// Evaluates `program`, which takes no bound values, retaining every event. Nothing can
/// cancel this run, so it succeeds exactly when the evaluation completes within budget.
pub fn evaluate(program: &CompiledExpression, limits: Limits) -> (r: Outcome)
    ensures
        outcome_ok(*program, unbound_problem(program.spec_inputs()), Seq::empty(), limits, default_options(),
            r, r.trace@.len() as int, trace_units(trace_view(r.trace@)) as int),
        not_cancelled(r),
{
    let none = InputBindings::new();
    let mut silent = Silent::new();
    let o = evaluate_with(program, &none, limits, ObservationOptions::default(), None, &mut silent);
    proof { lemma_unbound(program.spec_inputs(), none); }
    o.outcome
}

/// Evaluates `program` on `bindings`, validating all of them first, retaining every
/// event. Nothing can cancel this run.
pub fn evaluate_bound(program: &CompiledExpression, bindings: &InputBindings, limits: Limits) -> (r: Outcome)
    ensures
        outcome_ok(*program, resolve_problem(program.spec_inputs(), *bindings),
            program_values(program.spec_inputs(), *bindings), limits, default_options(),
            r, r.trace@.len() as int, trace_units(trace_view(r.trace@)) as int),
        not_cancelled(r),
{
    let mut silent = Silent::new();
    let o = evaluate_with(program, bindings, limits, ObservationOptions::default(), None, &mut silent);
    o.outcome
}

} // verus!
