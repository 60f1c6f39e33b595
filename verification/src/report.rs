//! A small, versioned JSON report for native expressions; NOT a full evidence certificate.
use vstd::prelude::*;
use crate::execution::{option_view, Limits, Outcome, TraceStep};
use crate::text::{push_char, push_str, utf16_of, utf16_units};
use crate::{Diagnostic, Span, Type, Value, ValueModel, model_type};

verus! {

/// The engine version reported in every document.
pub const ENGINE_VERSION: &'static str = "0.1.0";

/// The decimal digits of a natural number.
pub open spec fn decimal(n: nat) -> Seq<char>
    decreases n,
{
    if n < 10 {
        seq![(('0' as u32) + n) as char]
    } else {
        decimal(n / 10).push((('0' as u32) + n % 10) as char)
    }
}

/// The decimal text of a number is a nonempty run of ASCII digits, at most three long
/// below 1000.
pub proof fn lemma_decimal_digits(n: nat)
    ensures
        decimal(n).len() >= 1,
        n >= 10 ==> decimal(n).len() >= 2,
        forall|i: int| 0 <= i < decimal(n).len() ==> crate::text::is_ascii_digit(#[trigger] decimal(n)[i]),
        n < 10 ==> decimal(n).len() == 1,
        n < 100 ==> decimal(n).len() <= 2,
        n < 1000 ==> decimal(n).len() <= 3,
    decreases n,
{
    if n >= 10 {
        lemma_decimal_digits(n / 10);
        let d = decimal(n / 10);
        assert forall|i: int| 0 <= i < decimal(n).len() implies crate::text::is_ascii_digit(#[trigger] decimal(n)[i]) by {
            if i < d.len() { assert(decimal(n)[i] == d[i]); }
        }
    }
}

/// Distinct numbers have distinct decimal texts.
pub proof fn lemma_decimal_injective(a: nat, b: nat)
    ensures decimal(a) == decimal(b) ==> a == b,
    decreases a,
{
    lemma_decimal_digits(a);
    lemma_decimal_digits(b);
    if decimal(a) == decimal(b) {
        if a < 10 && b < 10 {
            assert(decimal(a)[0] == decimal(b)[0]);
        } else if a >= 10 && b >= 10 {
            assert(decimal(a).last() == decimal(b).last());
            assert(decimal(a).drop_last() =~= decimal(a / 10));
            assert(decimal(b).drop_last() =~= decimal(b / 10));
            lemma_decimal_injective(a / 10, b / 10);
            assert(a % 10 == b % 10);
        }
    }
}

/// The decimal text of an integer, with a leading `-` when negative.
pub open spec fn int_text(n: int) -> Seq<char> {
    if n < 0 { seq!['-'] + decimal((-n) as nat) } else { decimal(n as nat) }
}

/// A lowercase hexadecimal digit.
pub open spec fn hex_char(d: nat) -> char {
    if d < 10 { (('0' as u32) + d) as char } else { (('a' as u32) + d - 10) as char }
}

/// The JSON form of one UTF-16 unit inside a string: quote and backslash escaped,
/// printable ASCII as is, anything else as a `\u` escape of four lowercase hex digits.
pub open spec fn unit_json(u: u16) -> Seq<char> {
    if u == 34 {
        seq!['\\', '"']
    } else if u == 92 {
        seq!['\\', '\\']
    } else if 0x20 <= u <= 0x7e {
        seq![u as char]
    } else {
        seq!['\\', 'u', hex_char((u / 4096) as nat), hex_char(((u / 256) % 16) as nat),
            hex_char(((u / 16) % 16) as nat), hex_char((u % 16) as nat)]
    }
}

pub open spec fn units_json(us: Seq<u16>) -> Seq<char>
    decreases us.len(),
{
    if us.len() == 0 { Seq::empty() } else { units_json(us.drop_last()) + unit_json(us.last()) }
}

/// A JSON string literal holding exactly the given UTF-16 units.
pub open spec fn quote_spec(us: Seq<u16>) -> Seq<char> {
    seq!['"'] + units_json(us) + seq!['"']
}

pub open spec fn bool_text(b: bool) -> Seq<char> {
    if b { seq!['t', 'r', 'u', 'e'] } else { seq!['f', 'a', 'l', 's', 'e'] }
}

/// The JSON form of a value.
pub open spec fn value_json_spec(v: ValueModel) -> Seq<char> {
    match v {
        ValueModel::Int(n) => int_text(n as int),
        ValueModel::Bool(b) => bool_text(b),
        ValueModel::Text(t) => quote_spec(t),
    }
}

pub open spec fn span_json_spec(s: Span) -> Seq<char> {
    "{\"start\":"@ + decimal(s.start as nat) + ",\"end\":"@ + decimal(s.end as nat)
        + ",\"line\":"@ + decimal(s.line as nat) + ",\"column\":"@ + decimal(s.column as nat) + "}"@
}

pub open spec fn error_json_spec(d: Diagnostic) -> Seq<char> {
    "{\"code\":"@ + quote_spec(utf16_units(d.code@)) + ",\"message\":"@ + quote_spec(utf16_units(d.message@))
        + ",\"span\":"@ + span_json_spec(d.span) + "}"@
}

pub open spec fn step_json_spec(index: nat, s: TraceStep) -> Seq<char> {
    "{\"index\":"@ + decimal(index) + ",\"kind\":"@ + quote_spec(utf16_units(s.kind@))
        + ",\"label\":"@ + quote_spec(utf16_units(s.label@)) + ",\"span\":"@ + span_json_spec(s.span)
        + match option_view(s.value) { Some(v) => ",\"value\":"@ + value_json_spec(v), None => Seq::empty() }
        + "}"@
}

/// The events of a trace, comma separated, numbered from zero.
pub open spec fn trace_json_spec(t: Seq<TraceStep>) -> Seq<char>
    decreases t.len(),
{
    if t.len() == 0 {
        Seq::empty()
    } else if t.len() == 1 {
        step_json_spec(0, t[0])
    } else {
        trace_json_spec(t.drop_last()) + ","@ + step_json_spec((t.len() - 1) as nat, t.last())
    }
}

pub open spec fn type_name_spec(t: Type) -> Seq<char> {
    t.spec_name()
}

pub open spec fn result_json_spec(r: Result<Value, Diagnostic>) -> Seq<char> {
    match r {
        Ok(v) => "\"ok\":true,\"value\":"@ + value_json_spec(v@) + ",\"type\":"@
            + quote_spec(utf16_units(type_name_spec(model_type(v@)))),
        Err(d) => "\"ok\":false,\"error\":"@ + error_json_spec(d),
    }
}

pub open spec fn render_head(source: Seq<char>, uri: Seq<char>) -> Seq<char> {
    "{\"schema\":\"cannon.native.expression/1\",\"engine\":{\"name\":\"cannon-core\",\"version\":"@
        + quote_spec(utf16_units(ENGINE_VERSION@)) + ",\"implementation\":\"rust\"},\"source\":{\"uri\":"@
        + quote_spec(utf16_units(uri)) + ",\"text\":"@ + quote_spec(utf16_units(source))
}

pub open spec fn render_limits(limits: Limits, phase: Seq<char>, steps: nat) -> Seq<char> {
    "},\"limits\":{\"maxSteps\":"@ + decimal(limits.max_steps as nat) + ",\"maxDepth\":"@
        + decimal(limits.max_depth as nat) + ",\"maxTrace\":"@ + decimal(limits.max_trace as nat)
        + "},\"phase\":"@ + quote_spec(utf16_units(phase)) + ",\"steps\":"@ + decimal(steps)
}

pub open spec fn render_tail(o: Outcome) -> Seq<char> {
    ",\"trace\":["@ + trace_json_spec(o.trace@) + "],"@ + result_json_spec(o.result) + "}"@
}

/// The execution document of one run.
#[verifier::opaque]
pub open spec fn render_spec(source: Seq<char>, uri: Seq<char>, limits: Limits, phase: Seq<char>, o: Outcome) -> Seq<char> {
    render_head(source, uri) + render_limits(limits, phase, o.steps as nat) + render_tail(o)
}

/// Appends the decimal digits of `n`.
pub fn write_decimal(out: &mut String, n: u64)
    ensures final(out)@ == old(out)@ + decimal(n as nat),
    decreases n,
{
    if n >= 10 {
        write_decimal(out, n / 10);
    }
    let d = (n % 10) as u32;
    let c = char_from_digit(d);
    push_char(out, c);
    assert(final(out)@ =~= old(out)@ + decimal(n as nat));
}

fn char_from_digit(d: u32) -> (c: char)
    requires d < 16,
    ensures c == hex_char(d as nat),
{
    match d {
        0 => '0', 1 => '1', 2 => '2', 3 => '3', 4 => '4', 5 => '5', 6 => '6', 7 => '7',
        8 => '8', 9 => '9', 10 => 'a', 11 => 'b', 12 => 'c', 13 => 'd', 14 => 'e', _ => 'f',
    }
}

/// Appends the decimal text of `n`.
pub fn write_int(out: &mut String, n: i64)
    ensures final(out)@ == old(out)@ + int_text(n as int),
{
    if n < 0 {
        push_char(out, '-');
        let m = (0i128 - n as i128) as u64;
        write_decimal(out, m);
        assert(final(out)@ =~= old(out)@ + int_text(n as int));
    } else {
        write_decimal(out, n as u64);
    }
}

/// Appends a JSON string literal holding exactly `units`.
pub fn write_quoted(out: &mut String, units: &[u16])
    ensures final(out)@ == old(out)@ + quote_spec(units@),
{
    push_char(out, '"');
    let mut i: usize = 0;
    while i < units.len()
        invariant i <= units@.len(), out@ == old(out)@ + seq!['"'] + units_json(units@.take(i as int)),
        decreases units@.len() - i,
    {
        let u = units[i];
        let ghost before = out@;
        if u == 34 {
            push_str(out, "\\\"");
            proof { reveal_strlit("\\\""); }
        } else if u == 92 {
            push_str(out, "\\\\");
            proof { reveal_strlit("\\\\"); }
        } else if 0x20 <= u && u <= 0x7e {
            push_char(out, (u as u8) as char);
        } else {
            push_str(out, "\\u");
            proof { reveal_strlit("\\u"); }
            push_char(out, char_from_digit((u / 4096) as u32));
            push_char(out, char_from_digit(((u / 256) % 16) as u32));
            push_char(out, char_from_digit(((u / 16) % 16) as u32));
            push_char(out, char_from_digit((u % 16) as u32));
        }
        proof {
            assert(out@ =~= before + unit_json(u));
            assert(units@.take(i + 1).drop_last() =~= units@.take(i as int));
        }
        i += 1;
    }
    assert(units@.take(units@.len() as int) =~= units@);
    push_char(out, '"');
    assert(final(out)@ =~= old(out)@ + quote_spec(units@));
}

/// A JSON string literal holding exactly `units`.
pub fn quote_units(units: &[u16]) -> (s: String)
    ensures s@ == quote_spec(units@),
{
    let mut s = String::new();
    write_quoted(&mut s, units);
    s
}

/// A JSON string literal holding the UTF-16 units of `text`.
pub fn quote(text: &str) -> (s: String)
    ensures s@ == quote_spec(utf16_units(text@)),
{
    let units = utf16_of(text);
    quote_units(units.as_slice())
}

/// Appends the JSON string literal of `text`.
pub fn write_quote(out: &mut String, text: &str)
    ensures final(out)@ == old(out)@ + quote_spec(utf16_units(text@)),
{
    let units = utf16_of(text);
    write_quoted(out, units.as_slice());
}

/// Appends the JSON form of a value.
pub fn write_value(out: &mut String, value: &Value)
    ensures final(out)@ == old(out)@ + value_json_spec(value@),
{
    match value {
        Value::Int(n) => write_int(out, *n),
        Value::Bool(b) => {
            if *b {
                push_str(out, "true");
                proof { reveal_strlit("true"); }
            } else {
                push_str(out, "false");
                proof { reveal_strlit("false"); }
            }
            assert(final(out)@ =~= old(out)@ + value_json_spec(value@));
        }
        Value::Text(units) => write_quoted(out, units.as_slice()),
    }
}

/// The JSON form of a value.
pub fn value_json(value: &Value) -> (s: String)
    ensures s@ == value_json_spec(value@),
{
    let mut s = String::new();
    write_value(&mut s, value);
    assert(s@ =~= value_json_spec(value@));
    s
}

pub fn write_span(out: &mut String, span: Span)
    ensures final(out)@ == old(out)@ + span_json_spec(span),
{
    push_str(out, "{\"start\":");
    write_decimal(out, span.start as u64);
    push_str(out, ",\"end\":");
    write_decimal(out, span.end as u64);
    push_str(out, ",\"line\":");
    write_decimal(out, span.line as u64);
    push_str(out, ",\"column\":");
    write_decimal(out, span.column as u64);
    push_str(out, "}");
    assert(final(out)@ =~= old(out)@ + span_json_spec(span));
}

fn write_error(out: &mut String, error: &Diagnostic)
    ensures final(out)@ == old(out)@ + error_json_spec(*error),
{
    push_str(out, "{\"code\":");
    write_quote(out, error.code);
    push_str(out, ",\"message\":");
    write_quote(out, error.message.as_str());
    push_str(out, ",\"span\":");
    write_span(out, error.span);
    push_str(out, "}");
    assert(final(out)@ =~= old(out)@ + error_json_spec(*error));
}

fn write_step(out: &mut String, index: usize, step: &TraceStep)
    ensures final(out)@ == old(out)@ + step_json_spec(index as nat, *step),
{
    push_str(out, "{\"index\":");
    write_decimal(out, index as u64);
    push_str(out, ",\"kind\":");
    write_quote(out, step.kind);
    push_str(out, ",\"label\":");
    write_quote(out, step.label);
    push_str(out, ",\"span\":");
    write_span(out, step.span);
    let ghost mid = out@;
    match &step.value {
        Some(v) => {
            push_str(out, ",\"value\":");
            write_value(out, v);
        }
        None => {}
    }
    push_str(out, "}");
    assert(final(out)@ =~= old(out)@ + step_json_spec(index as nat, *step));
}

/// Appends the events of a trace, comma separated, numbered from zero.
pub fn write_trace(out: &mut String, trace: &[TraceStep])
    ensures final(out)@ == old(out)@ + trace_json_spec(trace@),
{
    let mut i: usize = 0;
    while i < trace.len()
        invariant i <= trace@.len(), out@ == old(out)@ + trace_json_spec(trace@.take(i as int)),
        decreases trace@.len() - i,
    {
        let ghost before = out@;
        proof { assert(trace@.take(i + 1).drop_last() =~= trace@.take(i as int)); }
        if i > 0 {
            push_str(out, ",");
        }
        write_step(out, i, &trace[i]);
        proof {
            if i == 0 {
                assert(trace@.take(1) =~= seq![trace@[0]]);
                assert(out@ =~= old(out)@ + trace_json_spec(trace@.take(1)));
            } else {
                assert(out@ =~= old(out)@ + trace_json_spec(trace@.take(i + 1)));
            }
        }
        i += 1;
    }
    assert(trace@.take(trace@.len() as int) =~= trace@);
}

fn write_result(out: &mut String, result: &Result<Value, Diagnostic>)
    ensures final(out)@ == old(out)@ + result_json_spec(*result),
{
    match result {
        Ok(value) => {
            push_str(out, "\"ok\":true,\"value\":");
            write_value(out, value);
            push_str(out, ",\"type\":");
            write_quote(out, value.value_type().name());
        }
        Err(error) => {
            push_str(out, "\"ok\":false,\"error\":");
            write_error(out, error);
        }
    }
    assert(final(out)@ =~= old(out)@ + result_json_spec(*result));
}

fn write_head(out: &mut String, source: &str, uri: &str)
    ensures final(out)@ == old(out)@ + render_head(source@, uri@),
{
    push_str(out, "{\"schema\":\"cannon.native.expression/1\",\"engine\":{\"name\":\"cannon-core\",\"version\":");
    write_quote(out, ENGINE_VERSION);
    push_str(out, ",\"implementation\":\"rust\"},\"source\":{\"uri\":");
    write_quote(out, uri);
    push_str(out, ",\"text\":");
    write_quote(out, source);
    assert(final(out)@ =~= old(out)@ + render_head(source@, uri@));
}

fn write_limits_part(out: &mut String, limits: Limits, phase: &str, steps: usize)
    ensures final(out)@ == old(out)@ + render_limits(limits, phase@, steps as nat),
{
    push_str(out, "},\"limits\":{\"maxSteps\":");
    write_decimal(out, limits.max_steps as u64);
    push_str(out, ",\"maxDepth\":");
    write_decimal(out, limits.max_depth as u64);
    push_str(out, ",\"maxTrace\":");
    write_decimal(out, limits.max_trace as u64);
    push_str(out, "},\"phase\":");
    write_quote(out, phase);
    push_str(out, ",\"steps\":");
    write_decimal(out, steps as u64);
    assert(final(out)@ =~= old(out)@ + render_limits(limits, phase@, steps as nat));
}

fn write_tail(out: &mut String, outcome: &Outcome)
    ensures final(out)@ == old(out)@ + render_tail(*outcome),
{
    push_str(out, ",\"trace\":[");
    write_trace(out, outcome.trace.as_slice());
    push_str(out, "],");
    write_result(out, &outcome.result);
    push_str(out, "}");
    assert(final(out)@ =~= old(out)@ + render_tail(*outcome));
}

/// Appends the execution document of one run.
pub fn write_render(out: &mut String, source: &str, uri: &str, limits: Limits, phase: &str, outcome: &Outcome)
    ensures final(out)@ == old(out)@ + render_spec(source@, uri@, limits, phase@, *outcome),
{
    write_head(out, source, uri);
    write_limits_part(out, limits, phase, outcome.steps);
    write_tail(out, outcome);
    reveal(render_spec);
    assert(final(out)@ =~= old(out)@ + render_spec(source@, uri@, limits, phase@, *outcome));
}

/// The execution document of one run: engine, source, limits, phase, steps, retained
/// trace and result.
pub fn render(source: &str, uri: &str, limits: Limits, phase: &str, outcome: &Outcome) -> (s: String)
    ensures s@ == render_spec(source@, uri@, limits, phase@, *outcome),
{
    let mut s = String::new();
    write_render(&mut s, source, uri, limits, phase, outcome);
    assert(s@ =~= render_spec(source@, uri@, limits, phase@, *outcome));
    s
}

} // verus!
