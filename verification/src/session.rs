//! Process-local document sessions over the typed policy engine.
//! Snapshots, requests and reviews are opaque handles, not signed wire evidence.
use std::ops::ControlFlow;
use std::sync::Arc;
use vstd::prelude::*;
use crate::cancel::CancellationToken;
use crate::collections::bindings_view;
use crate::execution::{evaluate_with, observed_ok, Limits, ObservationOptions, ObservedOutcome, Observer, Outcome, TraceStep, step_units, step_view, StepModel,
    calls_log, delivered, events_shown, program_values, shown_ok};
use crate::handles::{same_allocation, share};
use crate::inputs::{check_schema, copy_specs, input_views, lemma_schema_views, schema_ok, InputSpec};
use crate::policy_review::{case_ok, case_view, cases_ok, review_ok, suite_ok, review_limits_ok, review_policies_cancellable,
    validate_cases, values_units, PolicyCase, PolicyReview, ReviewLimits, SuiteStatus, spec_status};
use crate::syntax::{compile_with_inputs, compiled, compiled_from, parse_code, CompiledExpression};
use crate::text::{chars_of, count_utf16_bounded, count_utf8_bounded, is_unicode_space, push_str, unicode_space,
    utf16_len, utf8_len};
use crate::{Diagnostic, Type, Value, ValueModel, MAX_SOURCE_UNITS};

verus! {

/// Largest cumulative UTF-16 payload of all cases of one document.
pub const MAX_SESSION_TEXT_UNITS: usize = 1_048_576;
const MAX_URI_BYTES: usize = 4096;
const MAX_REASON_BYTES: usize = 8192;

/// Editable input, copied into an immutable snapshot after metadata validation.
#[derive(Clone, Debug)]
pub struct PolicyDocument {
    pub source: String,
    pub inputs: Vec<InputSpec>,
    pub cases: Vec<PolicyCase>,
}

/// Views of a list of cases.
pub open spec fn cases_view(cs: Seq<PolicyCase>) -> Seq<(Seq<char>, Seq<char>, (Seq<Seq<char>>, Seq<ValueModel>), ValueModel)> {
    cs.map_values(|c: PolicyCase| case_view(c))
}

/// What a document is.
pub open spec fn document_view(d: PolicyDocument) -> (Seq<char>, Seq<(Seq<char>, Seq<char>, crate::inputs::InputType)>,
    Seq<(Seq<char>, Seq<char>, (Seq<Seq<char>>, Seq<ValueModel>), ValueModel)>)
{
    (d.source@, input_views(d.inputs@), cases_view(d.cases@))
}

/// Why a session operation was refused.
#[derive(Clone, Debug, PartialEq, Eq)]
pub enum SessionError {
    Closed,
    StaleBase,
    InvalidUri,
    InvalidReason,
    SourceLimit,
    CaseTextLimit,
    InvalidMetadata(Diagnostic),
    UnknownCase,
    RevisionExhausted,
    InvalidCandidate,
    ReviewUnavailable,
    BaselineNotVerified,
    CandidateNotVerified,
    HistoricalExecutionFailed,
    HistoricalExpectationFailed,
}

/// The text of an error: `CODE: explanation`.
pub open spec fn error_text(e: SessionError) -> Seq<char> {
    match e {
        SessionError::InvalidMetadata(d) => d.code@ + ": "@ + d.message@,
        SessionError::Closed => "SESSION_CLOSED: this session is closed"@,
        SessionError::StaleBase => "STALE_BASE: the exact document revision is no longer current"@,
        SessionError::InvalidUri => "INVALID_URI: supply a nonempty URI of at most 4096 bytes"@,
        SessionError::InvalidReason => "INVALID_REASON: supply a nonempty rationale of at most 8192 bytes"@,
        SessionError::SourceLimit => "SOURCE_LIMIT: source exceeds the UTF-16 budget"@,
        SessionError::CaseTextLimit => "CASE_TEXT_LIMIT: cases exceed the cumulative text budget"@,
        SessionError::UnknownCase => "UNKNOWN_CASE: case ID is not present in this snapshot"@,
        SessionError::RevisionExhausted => "REVISION_EXHAUSTED: revision numbers must never wrap"@,
        SessionError::InvalidCandidate => "INVALID_CANDIDATE: candidate source does not compile"@,
        SessionError::ReviewUnavailable => "REVIEW_UNAVAILABLE: a complete review is required"@,
        SessionError::BaselineNotVerified => "BASELINE_NOT_VERIFIED: baseline cases must be nonempty and passing"@,
        SessionError::CandidateNotVerified => "CANDIDATE_NOT_VERIFIED: candidate cases must be nonempty and passing"@,
        SessionError::HistoricalExecutionFailed =>
            "HISTORICAL_EXECUTION_FAILED: an execution failure cannot be acknowledged as a changed value"@,
        SessionError::HistoricalExpectationFailed =>
            "HISTORICAL_EXPECTATION_FAILED: separately acknowledge changed historical values"@,
    }
}

impl SessionError {
    /// `CODE: explanation`.
    pub fn to_text(&self) -> (s: String)
        ensures s@ == error_text(*self),
    {
        match self {
            SessionError::InvalidMetadata(d) => {
                let mut s = String::from_str(d.code);
                push_str(&mut s, ": ");
                push_str(&mut s, d.message.as_str());
                assert(s@ =~= d.code@ + ": "@ + d.message@);
                s
            }
            SessionError::Closed => String::from_str("SESSION_CLOSED: this session is closed"),
            SessionError::StaleBase => String::from_str("STALE_BASE: the exact document revision is no longer current"),
            SessionError::InvalidUri => String::from_str("INVALID_URI: supply a nonempty URI of at most 4096 bytes"),
            SessionError::InvalidReason => String::from_str("INVALID_REASON: supply a nonempty rationale of at most 8192 bytes"),
            SessionError::SourceLimit => String::from_str("SOURCE_LIMIT: source exceeds the UTF-16 budget"),
            SessionError::CaseTextLimit => String::from_str("CASE_TEXT_LIMIT: cases exceed the cumulative text budget"),
            SessionError::UnknownCase => String::from_str("UNKNOWN_CASE: case ID is not present in this snapshot"),
            SessionError::RevisionExhausted => String::from_str("REVISION_EXHAUSTED: revision numbers must never wrap"),
            SessionError::InvalidCandidate => String::from_str("INVALID_CANDIDATE: candidate source does not compile"),
            SessionError::ReviewUnavailable => String::from_str("REVIEW_UNAVAILABLE: a complete review is required"),
            SessionError::BaselineNotVerified => String::from_str("BASELINE_NOT_VERIFIED: baseline cases must be nonempty and passing"),
            SessionError::CandidateNotVerified => String::from_str("CANDIDATE_NOT_VERIFIED: candidate cases must be nonempty and passing"),
            SessionError::HistoricalExecutionFailed => String::from_str(
                "HISTORICAL_EXECUTION_FAILED: an execution failure cannot be acknowledged as a changed value"),
            SessionError::HistoricalExpectationFailed => String::from_str(
                "HISTORICAL_EXPECTATION_FAILED: separately acknowledge changed historical values"),
        }
    }
}

/// Declared authorship is descriptive metadata, not authentication.
#[derive(Clone, Copy, Debug, PartialEq, Eq, Structural)]
pub enum Author { Human, Assistant }

/// Whether applying a change must keep every historical answer, or may acknowledge changed values.
#[derive(Clone, Copy, Debug, PartialEq, Eq, Structural)]
pub enum HistoricalPolicy { Preserve, AcknowledgeChangedValues }

/// The verdict of one run against its case.
#[derive(Clone, Copy, Debug, PartialEq, Eq, Structural)]
pub enum CheckState { Passed, Mismatch, CompilationError, ExecutionError }

/// Where a run stopped: at compilation, or during execution.
#[derive(Clone, Copy, Debug, PartialEq, Eq, Structural)]
pub enum Phase { Compilation, Execution }

/// UTF-16 units carried by one case's bound values and expected value.
pub open spec fn case_text(c: PolicyCase) -> nat {
    values_units(bindings_view(c.inputs).1.push(c.expected@))
}

/// UTF-16 units carried by all cases.
pub open spec fn session_units(cs: Seq<PolicyCase>) -> nat
    decreases cs.len(),
{
    if cs.len() == 0 { 0 } else { session_units(cs.drop_last()) + case_text(cs.last()) }
}

/// Whether a document's metadata is acceptable: a source within the UTF-16 budget, a
/// valid schema, acceptable cases, and at most 1048576 text units across all cases.
pub open spec fn document_ok(d: PolicyDocument) -> bool {
    &&& utf16_len(d.source@) <= MAX_SOURCE_UNITS
    &&& schema_ok(d.inputs@)
    &&& cases_ok(d.cases@)
    &&& session_units(d.cases@) <= MAX_SESSION_TEXT_UNITS
}

/// Text with at least one character that is not white space, of at most `max` UTF-8 bytes.
pub open spec fn text_ok(s: Seq<char>, max: int) -> bool {
    &&& exists|i: int| 0 <= i < s.len() && !is_unicode_space(#[trigger] s[i])
    &&& utf8_len(s) <= max
}

fn check_text(s: &str, max: usize) -> (r: bool)
    requires max <= 8192,
    ensures r == text_ok(s@, max as int),
{
    let cs = chars_of(s);
    let mut i: usize = 0;
    let mut visible = false;
    while i < cs.len()
        invariant
            i <= cs@.len(), cs@ == s@,
            visible <==> exists|j: int| 0 <= j < i && !is_unicode_space(#[trigger] cs@[j]),
        decreases cs@.len() - i,
    {
        if !unicode_space(cs[i]) {
            visible = true;
        }
        i += 1;
    }
    visible && count_utf8_bounded(cs.as_slice(), max).is_some()
}

fn check_source(source: &str) -> (r: Result<(), SessionError>)
    ensures
        r is Ok <==> utf16_len(source@) <= MAX_SOURCE_UNITS,
        r matches Err(e) ==> e == SessionError::SourceLimit,
{
    let cs = chars_of(source);
    match count_utf16_bounded(cs.as_slice(), MAX_SOURCE_UNITS) {
        Some(_) => Ok(()),
        None => Err(SessionError::SourceLimit),
    }
}

proof fn lemma_values_units_push(vs: Seq<ValueModel>, v: ValueModel)
    ensures values_units(vs.push(v)) == values_units(vs) + crate::model_text_units(v),
{
    assert(vs.push(v).drop_last() =~= vs);
}

/// Text units of one acceptable case.
fn case_text_units(c: &PolicyCase) -> (n: usize)
    requires case_ok(*c),
    ensures n == case_text(*c),
{
    let entries = c.inputs.entries();
    let ghost vals = bindings_view(c.inputs).1;
    let mut n: usize = 0;
    let mut i: usize = 0;
    while i < entries.len()
        invariant
            i <= entries@.len(), entries@.len() == c.inputs.keys().len(), c.inputs.keys().len() == c.inputs.values().len(),
            vals == c.inputs.values().map_values(|v: Value| v@),
            forall|j: int| 0 <= j < entries@.len() ==> (#[trigger] entries@[j]).1 == c.inputs.values()[j],
            n == values_units(vals.take(i as int)),
            case_ok(*c),
        decreases entries@.len() - i,
    {
        proof {
            assert(vals.take(i + 1) =~= vals.take(i as int).push(vals[i as int]));
            lemma_values_units_push(vals.take(i as int), vals[i as int]);
            assert(entries@[i as int].1 == c.inputs.values()[i as int]);
            crate::policy_review::lemma_prefix_units(vals.push(c.expected@), i + 1);
            assert(vals.push(c.expected@).take(i + 1) =~= vals.take(i + 1));
        }
        n = n + entries[i].1.text_units();
        i += 1;
    }
    proof {
        assert(vals.take(entries@.len() as int) =~= vals);
        lemma_values_units_push(vals, c.expected@);
    }
    n + c.expected.text_units()
}

proof fn lemma_session_prefix(cs: Seq<PolicyCase>, n: int)
    requires 0 <= n <= cs.len(),
    ensures session_units(cs.take(n)) <= session_units(cs),
    decreases cs.len() - n,
{
    if n < cs.len() {
        assert(cs.take(n + 1).drop_last() =~= cs.take(n));
        lemma_session_prefix(cs, n + 1);
    } else {
        assert(cs.take(n) =~= cs);
    }
}

fn check_cases(cases: &[PolicyCase]) -> (r: Result<(), SessionError>)
    ensures
        r is Ok <==> cases_ok(cases@) && session_units(cases@) <= MAX_SESSION_TEXT_UNITS,
        !cases_ok(cases@) ==> (r matches Err(SessionError::InvalidMetadata(d)) && d.code == "CASE_SCHEMA"),
        cases_ok(cases@) && session_units(cases@) > MAX_SESSION_TEXT_UNITS ==> r == Err::<(), SessionError>(SessionError::CaseTextLimit),
{
    match validate_cases(cases) {
        Ok(()) => {}
        Err(d) => { return Err(SessionError::InvalidMetadata(d)); }
    }
    let mut total: usize = 0;
    let mut i: usize = 0;
    while i < cases.len()
        invariant
            i <= cases@.len(), cases_ok(cases@),
            total == session_units(cases@.take(i as int)), total <= MAX_SESSION_TEXT_UNITS,
        decreases cases@.len() - i,
    {
        assert(case_ok(cases@[i as int]));
        let units = case_text_units(&cases[i]);
        proof { assert(cases@.take(i + 1).drop_last() =~= cases@.take(i as int)); }
        if units > MAX_SESSION_TEXT_UNITS - total {
            proof { lemma_session_prefix(cases@, i + 1); }
            return Err(SessionError::CaseTextLimit);
        }
        total = total + units;
        i += 1;
    }
    assert(cases@.take(cases@.len() as int) =~= cases@);
    Ok(())
}

/// What compiling a document gives: the expression its source compiles to against its
/// schema, or the diagnostic that reports why it does not compile.
pub open spec fn compiled_ok(d: PolicyDocument, c: Result<CompiledExpression, Diagnostic>) -> bool {
    match compiled(d.source@, input_views(d.inputs@)) {
        Ok(_) => c matches Ok(p) && compiled_from(p, d.source@, input_views(d.inputs@)),
        Err(f) => c matches Err(e) && e.reports(f) && parse_code(e.code),
    }
}

#[derive(Debug)]
struct SnapshotData {
    revision: u64,
    uri: String,
    document: Arc<PolicyDocument>,
    compiled: Arc<Result<CompiledExpression, Diagnostic>>,
    cancellation: CancellationToken,
}

/// One immutable revision of a document. Identity is its allocation, never URI, text or
/// revision-number equality.
#[derive(Debug)]
pub struct Snapshot(Arc<SnapshotData>);

impl Snapshot {
    #[verifier::type_invariant]
    closed spec fn valid(self) -> bool {
        &&& text_ok(self.0.uri@, MAX_URI_BYTES as int)
        &&& document_ok(*self.0.document)
        &&& compiled_ok(*self.0.document, *self.0.compiled)
    }

    pub closed spec fn spec_revision(&self) -> u64 { self.0.revision }
    pub closed spec fn spec_uri(&self) -> Seq<char> { self.0.uri@ }
    pub closed spec fn spec_document(&self) -> PolicyDocument { *self.0.document }
    pub closed spec fn spec_compiled(&self) -> Result<CompiledExpression, Diagnostic> { *self.0.compiled }

    pub fn revision(&self) -> (r: u64)
        ensures r == self.spec_revision(),
    {
        self.0.revision
    }

    pub fn uri(&self) -> (r: &str)
        ensures r@ == self.spec_uri(), text_ok(r@, 4096),
    {
        proof { use_type_invariant(self); }
        self.0.uri.as_str()
    }

    /// The document of this revision; its metadata is always acceptable.
    pub fn document(&self) -> (r: &PolicyDocument)
        ensures *r == self.spec_document(), document_ok(*r),
    {
        proof { use_type_invariant(self); }
        &*self.0.document
    }

    pub fn source(&self) -> (r: &str)
        ensures r@ == self.spec_document().source@,
    {
        self.document().source.as_str()
    }

    pub fn inputs(&self) -> (r: &[InputSpec])
        ensures r@ == self.spec_document().inputs@,
    {
        self.document().inputs.as_slice()
    }

    pub fn cases(&self) -> (r: &[PolicyCase])
        ensures r@ == self.spec_document().cases@, cases_ok(r@),
    {
        self.document().cases.as_slice()
    }

    /// The compilation diagnostic, when the source does not compile.
    pub fn diagnostic(&self) -> (r: Option<&Diagnostic>)
        ensures
            r is Some <==> self.spec_compiled() is Err,
            r matches Some(d) ==> self.spec_compiled() == Err::<CompiledExpression, Diagnostic>(*d) && parse_code(d.code),
            compiled_ok(self.spec_document(), self.spec_compiled()),
    {
        proof { use_type_invariant(self); }
        match &*self.0.compiled {
            Ok(_) => None,
            Err(d) => Some(d),
        }
    }

    /// The type of the compiled policy, when it compiles.
    pub fn value_type(&self) -> (r: Option<Type>)
        ensures
            r is Some <==> self.spec_compiled() is Ok,
            r matches Some(t) ==> t == self.spec_compiled()->Ok_0.spec_type(),
            compiled_ok(self.spec_document(), self.spec_compiled()),
    {
        proof { use_type_invariant(self); }
        match &*self.0.compiled {
            Ok(p) => Some(p.value_type()),
            Err(_) => None,
        }
    }

    /// Whether the work of this revision has been cancelled. The answer may change at any
    /// time, as another holder of the session may close it or replace the revision.
    pub fn is_cancelled(&self) -> bool {
        self.0.cancellation.is_cancelled()
    }

    /// Whether both handles are the very same revision. Equal contents in another
    /// allocation are a different revision.
    pub fn same_revision(&self, other: &Self) -> (r: bool)
        ensures r ==> *self == *other,
    {
        same_allocation(&self.0, &other.0)
    }

    /// A new revision of `document`: the source within budget, then the schema, then the
    /// cases are checked before anything compiles.
    fn create(revision: u64, uri: String, document: PolicyDocument) -> (r: Result<Self, SessionError>)
        requires text_ok(uri@, MAX_URI_BYTES as int),
        ensures
            r is Ok <==> document_ok(document),
            utf16_len(document.source@) > MAX_SOURCE_UNITS ==> r == Err::<Self, SessionError>(SessionError::SourceLimit),
            utf16_len(document.source@) <= MAX_SOURCE_UNITS && !schema_ok(document.inputs@) ==>
                (r matches Err(SessionError::InvalidMetadata(d)) && d.code == "INPUT_SCHEMA"),
            utf16_len(document.source@) <= MAX_SOURCE_UNITS && schema_ok(document.inputs@) && !cases_ok(document.cases@) ==>
                (r matches Err(SessionError::InvalidMetadata(d)) && d.code == "CASE_SCHEMA"),
            utf16_len(document.source@) <= MAX_SOURCE_UNITS && schema_ok(document.inputs@) && cases_ok(document.cases@)
                && session_units(document.cases@) > MAX_SESSION_TEXT_UNITS ==> r == Err::<Self, SessionError>(SessionError::CaseTextLimit),
            r matches Ok(s) ==> s.spec_revision() == revision && s.spec_uri() == uri@ && s.spec_document() == document,
            r matches Ok(s) ==> compiled_ok(s.spec_document(), s.spec_compiled()),
    {
        check_source(document.source.as_str())?;
        match check_schema(document.inputs.as_slice()) {
            Ok(()) => {}
            Err(d) => { return Err(SessionError::InvalidMetadata(d)); }
        }
        check_cases(document.cases.as_slice())?;
        let compiled = compile_with_inputs(document.source.as_str(), document.inputs.as_slice());
        Ok(Snapshot(Arc::new(SnapshotData {
            revision, uri, document: Arc::new(document), compiled: Arc::new(compiled), cancellation: CancellationToken::new(),
        })))
    }

    /// The same revision in a new allocation, with its own cancellation.
    fn committed_copy(&self) -> (r: Self)
        ensures
            r.spec_revision() == self.spec_revision(), r.spec_uri() == self.spec_uri(),
            r.spec_document() == self.spec_document(), r.spec_compiled() == self.spec_compiled(),
    {
        proof { use_type_invariant(self); }
        Snapshot(Arc::new(SnapshotData {
            revision: self.0.revision, uri: self.0.uri.clone(), document: share(&self.0.document),
            compiled: share(&self.0.compiled), cancellation: CancellationToken::new(),
        }))
    }

    fn cancel(&self)
        opens_invariants none
        no_unwind
    {
        self.0.cancellation.cancel();
    }
}

impl Clone for Snapshot {
    /// Another handle to the same revision.
    fn clone(&self) -> (r: Self)
        ensures r == *self,
    {
        proof { use_type_invariant(self); }
        Snapshot(share(&self.0))
    }
}

/// Copies of cases with the same views.
fn copy_cases(cs: &[PolicyCase]) -> (r: Vec<PolicyCase>)
    ensures cases_view(r@) == cases_view(cs@),
{
    let mut r: Vec<PolicyCase> = Vec::new();
    let mut i: usize = 0;
    while i < cs.len()
        invariant i <= cs@.len(), r@.len() == i, forall|j: int| 0 <= j < i ==> case_view(#[trigger] r@[j]) == case_view(cs@[j]),
        decreases cs@.len() - i,
    {
        r.push(cs[i].duplicate());
        i += 1;
    }
    assert(cases_view(r@) =~= cases_view(cs@));
    r
}

proof fn lemma_units_view(a: Seq<PolicyCase>, b: Seq<PolicyCase>)
    requires cases_view(a) == cases_view(b),
    ensures session_units(a) == session_units(b),
    decreases a.len(),
{
    assert(a.len() == cases_view(a).len() && b.len() == cases_view(b).len());
    if a.len() > 0 {
        assert(cases_view(a.drop_last()) =~= cases_view(a).drop_last());
        assert(cases_view(b.drop_last()) =~= cases_view(b).drop_last());
        lemma_units_view(a.drop_last(), b.drop_last());
        assert(case_view(a.last()) == cases_view(a)[a.len() - 1]);
        assert(case_view(b.last()) == cases_view(b)[b.len() - 1]);
    }
}

/// Whether cases are acceptable depends only on what they are.
proof fn lemma_cases_view(a: Seq<PolicyCase>, b: Seq<PolicyCase>)
    requires cases_view(a) == cases_view(b),
    ensures cases_ok(a) == cases_ok(b), session_units(a) == session_units(b),
{
    lemma_units_view(a, b);
    assert(a.len() == cases_view(a).len() && b.len() == cases_view(b).len());
    assert forall|i: int| 0 <= i < a.len() implies case_ok(#[trigger] a[i]) == case_ok(b[i]) && a[i].id@ == b[i].id@ by {
        assert(cases_view(a)[i] == cases_view(b)[i]);
    }
    if cases_ok(a) {
        assert forall|i: int, j: int| 0 <= i < j < b.len() implies (#[trigger] b[i]).id@ != (#[trigger] b[j]).id@ by {
            assert(a[i].id@ != a[j].id@);
        }
        assert forall|i: int| 0 <= i < b.len() implies case_ok(#[trigger] b[i]) by { assert(case_ok(a[i])); }
    }
    if cases_ok(b) {
        assert forall|i: int, j: int| 0 <= i < j < a.len() implies (#[trigger] a[i]).id@ != (#[trigger] a[j]).id@ by {
            assert(b[i].id@ != b[j].id@);
        }
        assert forall|i: int| 0 <= i < a.len() implies case_ok(#[trigger] a[i]) by { assert(case_ok(b[i])); }
    }
}

/// One typed policy document and its current revision. Mutating methods require its
/// single owning thread. This is not a filesystem transaction or an authenticated audit log.
#[derive(Debug)]
pub struct PolicySession {
    current: Snapshot,
    closed: bool,
}

impl PolicySession {
    pub closed spec fn spec_current(&self) -> Snapshot { self.current }
    pub closed spec fn spec_closed(&self) -> bool { self.closed }

    /// A session on `document`, at revision 1. Incomplete expression syntax remains
    /// inspectable; malformed metadata is refused.
    pub fn new(uri: &str, document: PolicyDocument) -> (r: Result<Self, SessionError>)
        ensures
            !text_ok(uri@, 4096) ==> r == Err::<Self, SessionError>(SessionError::InvalidUri),
            text_ok(uri@, 4096) ==> (r is Ok <==> document_ok(document)),
            text_ok(uri@, 4096) && utf16_len(document.source@) > MAX_SOURCE_UNITS ==> r == Err::<Self, SessionError>(SessionError::SourceLimit),
            text_ok(uri@, 4096) && utf16_len(document.source@) <= MAX_SOURCE_UNITS && !schema_ok(document.inputs@) ==>
                (r matches Err(SessionError::InvalidMetadata(d)) && d.code == "INPUT_SCHEMA"),
            text_ok(uri@, 4096) && utf16_len(document.source@) <= MAX_SOURCE_UNITS && schema_ok(document.inputs@)
                && !cases_ok(document.cases@) ==> (r matches Err(SessionError::InvalidMetadata(d)) && d.code == "CASE_SCHEMA"),
            text_ok(uri@, 4096) && utf16_len(document.source@) <= MAX_SOURCE_UNITS && schema_ok(document.inputs@)
                && cases_ok(document.cases@) && session_units(document.cases@) > MAX_SESSION_TEXT_UNITS
                ==> r == Err::<Self, SessionError>(SessionError::CaseTextLimit),
            r matches Ok(s) ==> !s.spec_closed() && s.spec_current().spec_revision() == 1
                && s.spec_current().spec_uri() == uri@ && s.spec_current().spec_document() == document,
            r matches Ok(s) ==> compiled_ok(s.spec_current().spec_document(), s.spec_current().spec_compiled()),
    {
        Self::resume(uri, document, 1)
    }

    /// A session whose current revision carries the number `revision`, as when a stored
    /// document is opened again at the revision it had reached.
    pub fn resume(uri: &str, document: PolicyDocument, revision: u64) -> (r: Result<Self, SessionError>)
        ensures
            !text_ok(uri@, 4096) ==> r == Err::<Self, SessionError>(SessionError::InvalidUri),
            text_ok(uri@, 4096) ==> (r is Ok <==> document_ok(document)),
            text_ok(uri@, 4096) && utf16_len(document.source@) > MAX_SOURCE_UNITS ==> r == Err::<Self, SessionError>(SessionError::SourceLimit),
            text_ok(uri@, 4096) && utf16_len(document.source@) <= MAX_SOURCE_UNITS && !schema_ok(document.inputs@) ==>
                (r matches Err(SessionError::InvalidMetadata(d)) && d.code == "INPUT_SCHEMA"),
            text_ok(uri@, 4096) && utf16_len(document.source@) <= MAX_SOURCE_UNITS && schema_ok(document.inputs@)
                && !cases_ok(document.cases@) ==> (r matches Err(SessionError::InvalidMetadata(d)) && d.code == "CASE_SCHEMA"),
            text_ok(uri@, 4096) && utf16_len(document.source@) <= MAX_SOURCE_UNITS && schema_ok(document.inputs@)
                && cases_ok(document.cases@) && session_units(document.cases@) > MAX_SESSION_TEXT_UNITS
                ==> r == Err::<Self, SessionError>(SessionError::CaseTextLimit),
            r matches Ok(s) ==> !s.spec_closed() && s.spec_current().spec_revision() == revision
                && s.spec_current().spec_uri() == uri@ && s.spec_current().spec_document() == document,
            r matches Ok(s) ==> compiled_ok(s.spec_current().spec_document(), s.spec_current().spec_compiled()),
    {
        if !check_text(uri, MAX_URI_BYTES) {
            return Err(SessionError::InvalidUri);
        }
        let current = Snapshot::create(revision, uri.to_owned(), document)?;
        Ok(PolicySession { current, closed: false })
    }

    /// Another handle to the current revision.
    pub fn snapshot(&self) -> (r: Snapshot)
        ensures r == self.spec_current(),
    {
        self.current.clone()
    }

    pub fn is_closed(&self) -> (r: bool)
        ensures r == self.spec_closed(),
    {
        self.closed
    }

    /// Whether `snapshot` is this open session's current revision, by identity.
    pub fn is_current(&self, snapshot: &Snapshot) -> (r: bool)
        ensures r ==> !self.spec_closed() && *snapshot == self.spec_current(),
    {
        !self.closed && self.current.same_revision(snapshot)
    }

    /// Whether the receipt's revision is current. Also match a ticket when several runs of
    /// one revision are in flight; currentness alone is not success or ordering.
    pub fn receipt_is_current(&self, receipt: &RunReceipt) -> (r: bool)
        ensures r ==> !self.spec_closed() && receipt.spec_snapshot() == self.spec_current(),
    {
        self.is_current(receipt.snapshot())
    }

    /// Closes the session and cancels pending work of its current revision. Idempotent.
    pub fn close(&mut self)
        ensures final(self).spec_closed(), final(self).spec_current() == old(self).spec_current(),
    {
        self.closed = true;
        self.current.cancel();
    }

    fn check_base(&self, base: &Snapshot) -> (r: Result<(), SessionError>)
        ensures
            self.spec_closed() ==> r == Err::<(), SessionError>(SessionError::Closed),
            !self.spec_closed() && *base != self.spec_current() ==> r == Err::<(), SessionError>(SessionError::StaleBase),
            r is Ok ==> !self.spec_closed() && *base == self.spec_current(),
            r matches Err(e) ==> (e == SessionError::Closed && self.spec_closed()) || (e == SessionError::StaleBase && !self.spec_closed()),
    {
        if self.closed {
            Err(SessionError::Closed)
        } else if !self.current.same_revision(base) {
            Err(SessionError::StaleBase)
        } else {
            Ok(())
        }
    }

    fn next_revision(&self) -> (r: Result<u64, SessionError>)
        ensures
            r matches Ok(n) ==> n == self.spec_current().spec_revision() + 1,
            r is Err <==> self.spec_current().spec_revision() == u64::MAX,
            r matches Err(e) ==> e == SessionError::RevisionExhausted,
    {
        match self.current.revision().checked_add(1) {
            Some(n) => Ok(n),
            None => Err(SessionError::RevisionExhausted),
        }
    }

    /// Makes `next` current, cancelling pending work of the revision it replaces.
    fn install(&mut self, next: Snapshot) -> (r: Snapshot)
        ensures final(self).spec_current() == next, r == next, final(self).spec_closed() == old(self).spec_closed(),
    {
        self.current.cancel();
        self.current = next;
        self.snapshot()
    }

    /// A direct source edit keeps the input schema and every expected answer.
    pub fn edit_source(&mut self, base: &Snapshot, source: &str) -> (r: Result<Snapshot, SessionError>)
        ensures
            old(self).spec_closed() ==> r == Err::<Snapshot, SessionError>(SessionError::Closed),
            !old(self).spec_closed() && *base != old(self).spec_current() ==> r == Err::<Snapshot, SessionError>(SessionError::StaleBase),
            r is Err ==> final(self).spec_current() == old(self).spec_current() && final(self).spec_closed() == old(self).spec_closed(),
            !old(self).spec_closed() && *base == old(self).spec_current() && r != Err::<Snapshot, SessionError>(SessionError::StaleBase) ==> {
                &&& utf16_len(source@) > MAX_SOURCE_UNITS ==> r == Err::<Snapshot, SessionError>(SessionError::SourceLimit)
                &&& utf16_len(source@) <= MAX_SOURCE_UNITS && old(self).spec_current().spec_revision() == u64::MAX
                    ==> r == Err::<Snapshot, SessionError>(SessionError::RevisionExhausted)
                &&& utf16_len(source@) <= MAX_SOURCE_UNITS && old(self).spec_current().spec_revision() < u64::MAX ==> r is Ok
            },
            r matches Ok(s) ==> {
                &&& !old(self).spec_closed() && *base == old(self).spec_current()
                &&& s.spec_revision() == old(self).spec_current().spec_revision() + 1
                &&& s.spec_uri() == old(self).spec_current().spec_uri()
                &&& document_view(s.spec_document()) == (source@, input_views(old(self).spec_current().spec_document().inputs@),
                    cases_view(old(self).spec_current().spec_document().cases@))
                &&& final(self).spec_current() == s && !final(self).spec_closed()
            },
            r matches Ok(s) ==> compiled_ok(s.spec_document(), s.spec_compiled()),
    {
        self.check_base(base)?;
        check_source(source)?;
        let revision = self.next_revision()?;
        let current = self.current.document();
        let document = PolicyDocument {
            source: source.to_owned(), inputs: copy_specs(current.inputs.as_slice()), cases: copy_cases(current.cases.as_slice()),
        };
        proof {
            lemma_schema_views(current.inputs@, document.inputs@);
            lemma_cases_view(current.cases@, document.cases@);
        }
        let uri = self.current.uri().to_owned();
        let next = match Snapshot::create(revision, uri, document) {
            Ok(n) => n,
            Err(e) => { return Err(e); }
        };
        Ok(self.install(next))
    }

    /// Renames source-facing inputs and updates code together, without rewriting cases.
    pub fn edit_policy(&mut self, base: &Snapshot, source: &str, inputs: &[InputSpec]) -> (r: Result<Snapshot, SessionError>)
        ensures
            old(self).spec_closed() ==> r == Err::<Snapshot, SessionError>(SessionError::Closed),
            !old(self).spec_closed() && *base != old(self).spec_current() ==> r == Err::<Snapshot, SessionError>(SessionError::StaleBase),
            r is Err ==> final(self).spec_current() == old(self).spec_current() && final(self).spec_closed() == old(self).spec_closed(),
            !old(self).spec_closed() && *base == old(self).spec_current() && r != Err::<Snapshot, SessionError>(SessionError::StaleBase) ==> {
                &&& utf16_len(source@) > MAX_SOURCE_UNITS ==> r == Err::<Snapshot, SessionError>(SessionError::SourceLimit)
                &&& utf16_len(source@) <= MAX_SOURCE_UNITS && !schema_ok(inputs@) ==>
                    (r matches Err(SessionError::InvalidMetadata(d)) && d.code == "INPUT_SCHEMA")
                &&& utf16_len(source@) <= MAX_SOURCE_UNITS && schema_ok(inputs@) && old(self).spec_current().spec_revision() == u64::MAX
                    ==> r == Err::<Snapshot, SessionError>(SessionError::RevisionExhausted)
                &&& utf16_len(source@) <= MAX_SOURCE_UNITS && schema_ok(inputs@) && old(self).spec_current().spec_revision() < u64::MAX
                    ==> r is Ok
            },
            r matches Ok(s) ==> {
                &&& !old(self).spec_closed() && *base == old(self).spec_current()
                &&& s.spec_revision() == old(self).spec_current().spec_revision() + 1
                &&& s.spec_uri() == old(self).spec_current().spec_uri()
                &&& document_view(s.spec_document()) == (source@, input_views(inputs@), cases_view(old(self).spec_current().spec_document().cases@))
                &&& final(self).spec_current() == s && !final(self).spec_closed()
            },
            r matches Ok(s) ==> compiled_ok(s.spec_document(), s.spec_compiled()),
    {
        self.check_base(base)?;
        check_source(source)?;
        match check_schema(inputs) {
            Ok(()) => {}
            Err(d) => { return Err(SessionError::InvalidMetadata(d)); }
        }
        let revision = self.next_revision()?;
        let current = self.current.document();
        let document = PolicyDocument { source: source.to_owned(), inputs: copy_specs(inputs), cases: copy_cases(current.cases.as_slice()) };
        proof {
            lemma_schema_views(inputs@, document.inputs@);
            lemma_cases_view(current.cases@, document.cases@);
        }
        let uri = self.current.uri().to_owned();
        let next = match Snapshot::create(revision, uri, document) {
            Ok(n) => n,
            Err(e) => { return Err(e); }
        };
        Ok(self.install(next))
    }

    /// Edits examples and expected values separately from the implementation.
    pub fn revise_cases(&mut self, base: &Snapshot, cases: &[PolicyCase]) -> (r: Result<Snapshot, SessionError>)
        ensures
            old(self).spec_closed() ==> r == Err::<Snapshot, SessionError>(SessionError::Closed),
            !old(self).spec_closed() && *base != old(self).spec_current() ==> r == Err::<Snapshot, SessionError>(SessionError::StaleBase),
            r is Err ==> final(self).spec_current() == old(self).spec_current() && final(self).spec_closed() == old(self).spec_closed(),
            !old(self).spec_closed() && *base == old(self).spec_current() && r != Err::<Snapshot, SessionError>(SessionError::StaleBase) ==> {
                &&& !cases_ok(cases@) ==> (r matches Err(SessionError::InvalidMetadata(d)) && d.code == "CASE_SCHEMA")
                &&& cases_ok(cases@) && session_units(cases@) > MAX_SESSION_TEXT_UNITS ==> r == Err::<Snapshot, SessionError>(SessionError::CaseTextLimit)
                &&& cases_ok(cases@) && session_units(cases@) <= MAX_SESSION_TEXT_UNITS && old(self).spec_current().spec_revision() == u64::MAX
                    ==> r == Err::<Snapshot, SessionError>(SessionError::RevisionExhausted)
                &&& cases_ok(cases@) && session_units(cases@) <= MAX_SESSION_TEXT_UNITS && old(self).spec_current().spec_revision() < u64::MAX
                    ==> r is Ok
            },
            r matches Ok(s) ==> {
                &&& !old(self).spec_closed() && *base == old(self).spec_current()
                &&& s.spec_revision() == old(self).spec_current().spec_revision() + 1
                &&& s.spec_uri() == old(self).spec_current().spec_uri()
                &&& document_view(s.spec_document()) == (old(self).spec_current().spec_document().source@,
                    input_views(old(self).spec_current().spec_document().inputs@), cases_view(cases@))
                &&& final(self).spec_current() == s && !final(self).spec_closed()
            },
            r matches Ok(s) ==> compiled_ok(s.spec_document(), s.spec_compiled()),
    {
        self.check_base(base)?;
        check_cases(cases)?;
        let revision = self.next_revision()?;
        let current = self.current.document();
        let document = PolicyDocument { source: current.source.clone(), inputs: copy_specs(current.inputs.as_slice()), cases: copy_cases(cases) };
        proof {
            lemma_schema_views(current.inputs@, document.inputs@);
            lemma_cases_view(cases@, document.cases@);
        }
        let uri = self.current.uri().to_owned();
        let next = match Snapshot::create(revision, uri, document) {
            Ok(n) => n,
            Err(e) => { return Err(e); }
        };
        Ok(self.install(next))
    }

    /// A request to run one case of the current revision. Move it to a host worker; no
    /// thread is spawned here.
    pub fn prepare_case(&self, id: &str, limits: Limits, options: ObservationOptions) -> (r: Result<RunRequest, SessionError>)
        ensures
            self.spec_closed() ==> r == Err::<RunRequest, SessionError>(SessionError::Closed),
            !self.spec_closed() ==> (r is Ok <==> exists|i: int| 0 <= i < self.spec_current().spec_document().cases@.len()
                && (#[trigger] self.spec_current().spec_document().cases@[i]).id@ == id@),
            !self.spec_closed() && r is Err ==> r == Err::<RunRequest, SessionError>(SessionError::UnknownCase),
            r matches Ok(q) ==> q.spec_snapshot() == self.spec_current() && q.spec_limits() == limits && q.spec_options() == options
                && q.spec_index() < self.spec_current().spec_document().cases@.len()
                && self.spec_current().spec_document().cases@[q.spec_index() as int].id@ == id@,
    {
        if self.closed {
            return Err(SessionError::Closed);
        }
        let cases = self.current.cases();
        let mut i: usize = 0;
        while i < cases.len()
            invariant i <= cases@.len(), cases@ == self.spec_current().spec_document().cases@, !self.spec_closed(),
                forall|j: int| 0 <= j < i ==> (#[trigger] cases@[j]).id@ != id@,
            decreases cases@.len() - i,
        {
            if crate::text::str_equal(cases[i].id.as_str(), id) {
                return Ok(RunRequest { snapshot: self.snapshot(), index: i, limits, options, ticket: RunTicket(Arc::new(())) });
            }
            i += 1;
        }
        Err(SessionError::UnknownCase)
    }

    /// A proposed document for the next revision, with a stated rationale and declared author.
    pub fn propose(&self, base: &Snapshot, document: PolicyDocument, reason: &str, author: Author) -> (r: Result<ChangeProposal, SessionError>)
        ensures
            self.spec_closed() ==> r == Err::<ChangeProposal, SessionError>(SessionError::Closed),
            !self.spec_closed() && *base != self.spec_current() ==> r == Err::<ChangeProposal, SessionError>(SessionError::StaleBase),
            !self.spec_closed() && *base == self.spec_current() && r != Err::<ChangeProposal, SessionError>(SessionError::StaleBase) ==> {
                &&& !text_ok(reason@, 8192) ==> r == Err::<ChangeProposal, SessionError>(SessionError::InvalidReason)
                &&& text_ok(reason@, 8192) && self.spec_current().spec_revision() == u64::MAX
                    ==> r == Err::<ChangeProposal, SessionError>(SessionError::RevisionExhausted)
                &&& text_ok(reason@, 8192) && self.spec_current().spec_revision() < u64::MAX ==> (r is Ok <==> document_ok(document))
            },
            r matches Ok(p) ==> {
                &&& !self.spec_closed() && *base == self.spec_current()
                &&& p.spec_base() == *base
                &&& p.spec_candidate().spec_revision() == self.spec_current().spec_revision() + 1
                &&& p.spec_candidate().spec_uri() == self.spec_current().spec_uri()
                &&& p.spec_candidate().spec_document() == document
                &&& p.spec_reason() == reason@ && p.spec_author() == author
            },
            r matches Ok(p) ==> compiled_ok(p.spec_candidate().spec_document(), p.spec_candidate().spec_compiled()),
    {
        self.check_base(base)?;
        if !check_text(reason, MAX_REASON_BYTES) {
            return Err(SessionError::InvalidReason);
        }
        let revision = self.next_revision()?;
        let uri = self.current.uri().to_owned();
        let candidate = Snapshot::create(revision, uri, document)?;
        Ok(ChangeProposal { base: base.clone(), candidate, reason: reason.to_owned(), author })
    }

    /// Applies the candidate carried by a completed review. Acknowledgment permits changed
    /// historical values, never failed execution or missing evidence. The installed revision
    /// is a new handle, so a staged preview can never be relabelled as current.
    pub fn apply(&mut self, review: &ChangeReview, historical: HistoricalPolicy) -> (r: Result<Snapshot, SessionError>)
        ensures
            old(self).spec_closed() ==> r == Err::<Snapshot, SessionError>(SessionError::Closed),
            !old(self).spec_closed() && review.spec_proposal().spec_base() != old(self).spec_current()
                ==> r == Err::<Snapshot, SessionError>(SessionError::StaleBase),
            r is Err ==> final(self).spec_current() == old(self).spec_current() && final(self).spec_closed() == old(self).spec_closed(),
            !old(self).spec_closed() && review.spec_proposal().spec_base() == old(self).spec_current()
                && r != Err::<Snapshot, SessionError>(SessionError::StaleBase) ==> match apply_refusal(*review, historical) {
                    Some(e) => r == Err::<Snapshot, SessionError>(e),
                    None => r is Ok,
                },
            r matches Ok(s) ==> {
                &&& final(self).spec_current() == s && !final(self).spec_closed()
                &&& s.spec_revision() == review.spec_proposal().spec_candidate().spec_revision()
                &&& s.spec_uri() == review.spec_proposal().spec_candidate().spec_uri()
                &&& s.spec_document() == review.spec_proposal().spec_candidate().spec_document()
                &&& s.spec_compiled() == review.spec_proposal().spec_candidate().spec_compiled()
            },
            r matches Ok(s) ==> compiled_ok(s.spec_document(), s.spec_compiled()),
    {
        proof { use_type_invariant(review); }
        self.check_base(&review.proposal.base)?;
        if review.proposal.candidate.diagnostic().is_some() {
            return Err(SessionError::InvalidCandidate);
        }
        let report = match &review.result {
            Ok(report) => report,
            Err(_) => { return Err(SessionError::ReviewUnavailable); }
        };
        if PolicyReview::status(report.baseline_results.as_slice()) != SuiteStatus::Passed {
            return Err(SessionError::BaselineNotVerified);
        }
        if PolicyReview::status(report.candidate_results.as_slice()) != SuiteStatus::Passed {
            return Err(SessionError::CandidateNotVerified);
        }
        let hs = report.historical_results.as_slice();
        if any_execution_error(hs) {
            return Err(SessionError::HistoricalExecutionFailed);
        }
        if historical == HistoricalPolicy::Preserve && PolicyReview::status(hs) != SuiteStatus::Passed {
            return Err(SessionError::HistoricalExpectationFailed);
        }
        let next = review.proposal.candidate.committed_copy();
        Ok(self.install(next))
    }
}

impl Drop for PolicySession {
    /// Dropping the owner cancels pending work of its current revision.
    fn drop(&mut self)
        opens_invariants none
        no_unwind
    {
        self.current.cancel();
    }
}

/// Distinguishes requests for the same case and revision with different settings.
#[derive(Clone, Debug)]
pub struct RunTicket(Arc<()>);


/// Why applying a review of the current revision is refused, if it is: the candidate must
/// compile, the review must be complete, both suites must pass, no historical replay may
/// fail to execute, and unless changed values are acknowledged every historical answer must hold.
pub open spec fn apply_refusal(review: ChangeReview, historical: HistoricalPolicy) -> Option<SessionError> {
    let p = review.spec_proposal();
    if p.spec_candidate().spec_compiled() is Err {
        Some(SessionError::InvalidCandidate)
    } else if review.spec_result() is Err {
        Some(SessionError::ReviewUnavailable)
    } else if spec_status(review.spec_result()->Ok_0.baseline_results@) != SuiteStatus::Passed {
        Some(SessionError::BaselineNotVerified)
    } else if spec_status(review.spec_result()->Ok_0.candidate_results@) != SuiteStatus::Passed {
        Some(SessionError::CandidateNotVerified)
    } else if exists|i: int| 0 <= i < review.spec_result()->Ok_0.historical_results@.len()
        && (#[trigger] review.spec_result()->Ok_0.historical_results@[i]).outcome.result is Err {
        Some(SessionError::HistoricalExecutionFailed)
    } else if historical == HistoricalPolicy::Preserve && spec_status(review.spec_result()->Ok_0.historical_results@) != SuiteStatus::Passed {
        Some(SessionError::HistoricalExpectationFailed)
    } else {
        None
    }
}

impl RunTicket {
    /// Whether `receipt` is the result of the request this ticket was taken from.
    pub fn matches(&self, receipt: &RunReceipt) -> bool {
        same_allocation(&self.0, &receipt.ticket.0)
    }
}

/// A host callback told which revision each event belongs to.
pub(crate) struct SnapshotHook<'a, F> {
    pub(crate) snapshot: &'a Snapshot,
    pub(crate) f: F,
    pub(crate) seen: Ghost<nat>,
    pub(crate) seen_units: Ghost<nat>,
    pub(crate) halted: Ghost<bool>,
    pub(crate) calls: Ghost<Seq<(TraceStep, ControlFlow<()>)>>,
}

/// Every reply in `calls` is one that the host callback `f` can give to the revision
/// `snapshot` and the event beside the reply.
pub open spec fn snapshot_answered<F: FnMut(&Snapshot, &TraceStep) -> ControlFlow<()>>(f: F, snapshot: Snapshot,
    calls: Seq<(TraceStep, ControlFlow<()>)>) -> bool
{
    forall|k: int| 0 <= k < calls.len() ==> call_ensures(f, (&snapshot, &(#[trigger] calls[k]).0), calls[k].1)
}

impl<'a, F: FnMut(&Snapshot, &TraceStep) -> ControlFlow<()>> Observer for SnapshotHook<'a, F> {
    open spec fn ready(&self) -> bool {
        &&& forall|s: &Snapshot, t: &TraceStep| call_requires(self.f, (s, t))
        &&& snapshot_answered(self.f, *self.snapshot, self.calls@)
    }

    open spec fn quiet(&self) -> bool { false }

    open spec fn seen(&self) -> nat { self.seen@ }

    open spec fn seen_units(&self) -> nat { self.seen_units@ }

    open spec fn halted(&self) -> bool { self.halted@ }

    open spec fn bounds(&self) -> (nat, nat) { (0, 0) }

    type Host = (Snapshot, F);

    open spec fn host(&self) -> (Snapshot, F) { (*self.snapshot, self.f) }

    open spec fn log(&self) -> Seq<(StepModel, bool)> { calls_log(self.calls@) }

    fn observe(&mut self, step: &TraceStep) -> (r: ControlFlow<()>) {
        let ghost before = self.calls@;
        let r = (self.f)(self.snapshot, step);
        self.calls = Ghost(before.push((*step, r)));
        assert(calls_log(self.calls@) =~= calls_log(before).push((step_view(*step), r is Continue)));
        self.seen = Ghost(self.seen@ + 1);
        self.seen_units = Ghost(self.seen_units@ + step_units(step_view(*step)));
        match r {
            ControlFlow::Break(()) => {
                self.halted = Ghost(true);
                ControlFlow::Break(())
            }
            ControlFlow::Continue(()) => ControlFlow::Continue(()),
        }
    }
}

/// An immutable request to run one case of one revision.
#[derive(Debug)]
pub struct RunRequest {
    snapshot: Snapshot,
    index: usize,
    limits: Limits,
    options: ObservationOptions,
    ticket: RunTicket,
}

/// What running case `index` of `snapshot` reports: a compilation failure before anything
/// runs, or the evaluation of the compiled policy on the case's bound values, cancelled when
/// the revision is replaced or the session closes.
pub open spec fn receipt_ok(snapshot: Snapshot, index: usize, limits: Limits, options: ObservationOptions, r: RunReceipt) -> bool {
    &&& r.spec_snapshot() == snapshot && r.spec_index() == index && r.spec_limits() == limits
    &&& match snapshot.spec_compiled() {
        Ok(p) => r.spec_phase() == Phase::Execution
            && observed_ok(p, snapshot.spec_document().cases@[index as int].inputs, limits, options, r.spec_observed()),
        Err(d) => r.spec_phase() == Phase::Compilation
            && (r.spec_observed().outcome.result matches Err(e) && e.code == d.code && e.message@ == d.message@ && e.span == d.span)
            && r.spec_observed().outcome.trace@.len() == 0 && r.spec_observed().outcome.steps == 0
            && r.spec_observed().options == options && r.spec_observed().emitted_events == 0
            && r.spec_observed().observed_text_units == 0,
    }
}

/// Whether some replayed case failed to execute.
fn any_execution_error(hs: &[crate::policy_review::CaseResult]) -> (r: bool)
    ensures r == exists|i: int| 0 <= i < hs@.len() && (#[trigger] hs@[i]).outcome.result is Err,
{
    let mut i: usize = 0;
    while i < hs.len()
        invariant i <= hs@.len(), forall|j: int| 0 <= j < i ==> (#[trigger] hs@[j]).outcome.result is Ok,
        decreases hs@.len() - i,
    {
        if hs[i].outcome.result.is_err() {
            return true;
        }
        i += 1;
    }
    false
}

/// The events a run of case `index` of `snapshot` delivers when nothing cancels it: none
/// where the revision does not compile.
pub open spec fn case_delivered(snapshot: Snapshot, index: usize, limits: Limits, options: ObservationOptions) -> Seq<StepModel> {
    match snapshot.spec_compiled() {
        Ok(p) => {
            let b = snapshot.spec_document().cases@[index as int].inputs;
            delivered(p, crate::inputs::resolve_problem(p.spec_inputs(), b), program_values(p.spec_inputs(), b), limits, options)
        },
        Err(_) => Seq::empty(),
    }
}

/// Runs case `index` of `snapshot`, delivering events to `observer`.
fn run_case<O: Observer>(snapshot: &Snapshot, index: usize, limits: Limits, options: ObservationOptions, observer: &mut O)
    -> (r: (Phase, ObservedOutcome))
    requires old(observer).ready(), index < snapshot.spec_document().cases@.len(),
    ensures
        final(observer).ready(), final(observer).host() == old(observer).host(),
        shown_ok(old(observer).log(), final(observer).log(), case_delivered(*snapshot, index, limits, options), r.1),
        match snapshot.spec_compiled() {
            Ok(p) => r.0 == Phase::Execution
                && observed_ok(p, snapshot.spec_document().cases@[index as int].inputs, limits, options, r.1),
            Err(d) => r.0 == Phase::Compilation
                && (r.1.outcome.result matches Err(e) && e.code == d.code && e.message@ == d.message@ && e.span == d.span)
                && r.1.outcome.trace@.len() == 0 && r.1.outcome.steps == 0
                && r.1.options == options && r.1.emitted_events == 0 && r.1.observed_text_units == 0,
        },
{
    match &*snapshot.0.compiled {
        Ok(program) => {
            let cases = snapshot.cases();
            let o = evaluate_with(program, &cases[index].inputs, limits, options, Some(&snapshot.0.cancellation), observer);
            (Phase::Execution, o)
        }
        Err(error) => {
            let o = ObservedOutcome {
                outcome: Outcome { result: Err(error.duplicate()), trace: Vec::new(), steps: 0 },
                options, emitted_events: 0, observed_text_units: 0,
            };
            proof {
                let log = observer.log();
                assert(log.subrange(0, log.len() as int) =~= log);
                assert(log.subrange(log.len() as int, log.len() as int) =~= Seq::<(StepModel, bool)>::empty());
                assert(crate::execution::trace_view(o.outcome.trace@) =~= Seq::<StepModel>::empty().subrange(0, 0));
            }
            (Phase::Compilation, o)
        }
    }
}

impl RunRequest {
    #[verifier::type_invariant]
    closed spec fn valid(self) -> bool {
        self.index < self.snapshot.spec_document().cases@.len()
    }

    pub closed spec fn spec_snapshot(&self) -> Snapshot { self.snapshot }
    pub closed spec fn spec_index(&self) -> usize { self.index }
    pub closed spec fn spec_limits(&self) -> Limits { self.limits }
    pub closed spec fn spec_options(&self) -> ObservationOptions { self.options }

    pub fn snapshot(&self) -> (r: &Snapshot)
        ensures *r == self.spec_snapshot(),
    {
        &self.snapshot
    }

    /// The ticket that matches this request's receipt.
    pub fn ticket(&self) -> RunTicket {
        RunTicket(share(&self.ticket.0))
    }

    /// Runs the case with no observer.
    pub fn execute(self) -> (r: RunReceipt)
        ensures receipt_ok(self.spec_snapshot(), self.spec_index(), self.spec_limits(), self.spec_options(), r),
    {
        proof { use_type_invariant(&self); }
        let mut silent = crate::execution::Silent::new();
        let (phase, observed) = run_case(&self.snapshot, self.index, self.limits, self.options, &mut silent);
        RunReceipt { snapshot: self.snapshot, index: self.index, limits: self.limits, ticket: self.ticket, phase, observed }
    }

    /// Runs the case, delivering each event with its revision to `observer`, which may stop the run.
    pub fn execute_observed<F: FnMut(&Snapshot, &TraceStep) -> ControlFlow<()>>(self, observer: F) -> (r: RunReceipt)
        requires forall|s: &Snapshot, t: &TraceStep| call_requires(observer, (s, t)),
        ensures
            receipt_ok(self.spec_snapshot(), self.spec_index(), self.spec_limits(), self.spec_options(), r),
            exists|calls: Seq<(TraceStep, ControlFlow<()>)>| snapshot_answered(observer, self.spec_snapshot(), calls)
                && #[trigger] events_shown(calls_log(calls),
                    case_delivered(self.spec_snapshot(), self.spec_index(), self.spec_limits(), self.spec_options()), r.spec_observed()),
    {
        proof { use_type_invariant(&self); }
        let ghost calls: Seq<(TraceStep, ControlFlow<()>)>;
        let (phase, observed) = {
            let mut hook = SnapshotHook { snapshot: &self.snapshot, f: observer, seen: Ghost(0), seen_units: Ghost(0), halted: Ghost(false), calls: Ghost(Seq::empty()) };
            proof { assert(calls_log(hook.calls@) =~= Seq::<(StepModel, bool)>::empty()); }
            let o = run_case(&self.snapshot, self.index, self.limits, self.options, &mut hook);
            proof {
                let after = calls_log(hook.calls@);
                assert(after.subrange(0, after.len() as int) =~= after);
                assert(snapshot_answered(observer, self.snapshot, hook.calls@));
                calls = hook.calls@;
            }
            o
        };
        let ghost before = self;
        let r = RunReceipt { snapshot: self.snapshot, index: self.index, limits: self.limits, ticket: self.ticket, phase, observed };
        proof {
            assert(snapshot_answered(observer, before.spec_snapshot(), calls));
            assert(events_shown(calls_log(calls),
                case_delivered(before.spec_snapshot(), before.spec_index(), before.spec_limits(), before.spec_options()), r.spec_observed()));
        }
        r
    }
}

/// The verdict of a receipt: compilation failure, execution failure, or whether the value
/// equals the case's expected value.
pub open spec fn check_spec(phase: Phase, result: Result<Value, Diagnostic>, expected: Value) -> CheckState {
    if phase == Phase::Compilation {
        CheckState::CompilationError
    } else {
        match result {
            Err(_) => CheckState::ExecutionError,
            Ok(v) => if v@ == expected@ { CheckState::Passed } else { CheckState::Mismatch },
        }
    }
}

/// The record of one run of one case of one revision.
#[derive(Debug)]
pub struct RunReceipt {
    snapshot: Snapshot,
    index: usize,
    limits: Limits,
    ticket: RunTicket,
    phase: Phase,
    observed: ObservedOutcome,
}

impl RunReceipt {
    #[verifier::type_invariant]
    closed spec fn valid(self) -> bool {
        &&& self.index < self.snapshot.spec_document().cases@.len()
        &&& self.phase == (if self.snapshot.spec_compiled() is Ok { Phase::Execution } else { Phase::Compilation })
    }

    pub closed spec fn spec_snapshot(&self) -> Snapshot { self.snapshot }
    pub closed spec fn spec_index(&self) -> usize { self.index }
    pub closed spec fn spec_limits(&self) -> Limits { self.limits }
    pub closed spec fn spec_phase(&self) -> Phase { self.phase }
    pub closed spec fn spec_observed(&self) -> ObservedOutcome { self.observed }

    pub fn snapshot(&self) -> (r: &Snapshot)
        ensures *r == self.spec_snapshot(),
    {
        &self.snapshot
    }

    /// The case that was run.
    pub fn case(&self) -> (r: &PolicyCase)
        ensures
            self.spec_index() < self.spec_snapshot().spec_document().cases@.len(),
            *r == self.spec_snapshot().spec_document().cases@[self.spec_index() as int],
    {
        proof { use_type_invariant(self); }
        &self.snapshot.cases()[self.index]
    }

    pub fn limits(&self) -> (r: Limits)
        ensures r == self.spec_limits(),
    {
        self.limits
    }

    pub fn phase(&self) -> (r: Phase)
        ensures
            r == self.spec_phase(),
            r == (if self.spec_snapshot().spec_compiled() is Ok { Phase::Execution } else { Phase::Compilation }),
    {
        proof { use_type_invariant(self); }
        self.phase
    }

    pub fn observation(&self) -> (r: &ObservedOutcome)
        ensures *r == self.spec_observed(),
    {
        &self.observed
    }

    pub fn outcome(&self) -> (r: &Outcome)
        ensures *r == self.spec_observed().outcome,
    {
        &self.observed.outcome
    }

    /// The verdict of this run against its case.
    pub fn check(&self) -> (r: CheckState)
        ensures
            self.spec_index() < self.spec_snapshot().spec_document().cases@.len(),
            r == check_spec(self.spec_phase(), self.spec_observed().outcome.result,
                self.spec_snapshot().spec_document().cases@[self.spec_index() as int].expected),
    {
        let case = self.case();
        if self.phase == Phase::Compilation {
            return CheckState::CompilationError;
        }
        match &self.observed.outcome.result {
            Err(_) => CheckState::ExecutionError,
            Ok(v) => if v.same(&case.expected) { CheckState::Passed } else { CheckState::Mismatch },
        }
    }
}

/// A proposed next revision: the base it was made from, the private candidate, a rationale
/// and a declared author.
#[derive(Debug)]
pub struct ChangeProposal {
    base: Snapshot,
    candidate: Snapshot,
    reason: String,
    author: Author,
}

impl Clone for ChangeProposal {
    fn clone(&self) -> (r: Self)
        ensures r == *self,
    {
        ChangeProposal { base: self.base.clone(), candidate: self.candidate.clone(), reason: self.reason.clone(), author: self.author }
    }
}

/// What a preview of `p` reports: a compilation diagnostic of the base, then of the
/// candidate; otherwise the review of the candidate against the base with the base's cases
/// and the candidate's cases, cancelled when the base revision is replaced.
pub open spec fn preview_ok(p: ChangeProposal, limits: ReviewLimits, r: Result<PolicyReview, Diagnostic>) -> bool {
    match (p.spec_base().spec_compiled(), p.spec_candidate().spec_compiled()) {
        (Err(d), _) => r matches Err(e) && e.code == d.code && e.message@ == d.message@ && e.span == d.span,
        (Ok(_), Err(d)) => r matches Err(e) && e.code == d.code && e.message@ == d.message@ && e.span == d.span,
        (Ok(b), Ok(c)) => {
            &&& !review_limits_ok(limits) ==> (r matches Err(e) && e.code == "INVALID_LIMIT")
            &&& r matches Err(e) ==> (e.code == "INVALID_LIMIT" || e.code == "REVIEW_LIMIT" || e.code == "CANCELLED")
            &&& r matches Ok(v) ==> review_limits_ok(limits)
                && review_ok(b, c, p.spec_base().spec_document().cases@, p.spec_candidate().spec_document().cases@, limits, v)
        },
    }
}

impl ChangeProposal {
    pub closed spec fn spec_base(&self) -> Snapshot { self.base }
    pub closed spec fn spec_candidate(&self) -> Snapshot { self.candidate }
    pub closed spec fn spec_reason(&self) -> Seq<char> { self.reason@ }
    pub closed spec fn spec_author(&self) -> Author { self.author }

    pub fn base(&self) -> (r: &Snapshot)
        ensures *r == self.spec_base(),
    {
        &self.base
    }

    pub fn candidate(&self) -> (r: &Snapshot)
        ensures *r == self.spec_candidate(),
    {
        &self.candidate
    }

    pub fn reason(&self) -> (r: &str)
        ensures r@ == self.spec_reason(),
    {
        self.reason.as_str()
    }

    pub fn author(&self) -> (r: Author)
        ensures r == self.spec_author(),
    {
        self.author
    }

    /// Reviews the candidate against the base: the base's cases on the base, the
    /// candidate's cases on the candidate, and the base's cases replayed on the candidate.
    pub fn preview(&self, limits: ReviewLimits) -> (r: ChangeReview)
        ensures r.spec_proposal() == *self, preview_ok(*self, limits, r.spec_result()),
    {
        proof {
            use_type_invariant(&self.base);
            use_type_invariant(&self.candidate);
        }
        let result = match (&*self.base.0.compiled, &*self.candidate.0.compiled) {
            (Ok(base), Ok(candidate)) => review_policies_cancellable(base, candidate, self.base.cases(), self.candidate.cases(),
                limits, &self.base.0.cancellation),
            (Err(error), _) => Err(error.duplicate()),
            (Ok(_), Err(error)) => Err(error.duplicate()),
        };
        ChangeReview { proposal: self.clone(), result, limits }
    }
}

/// A completed preview. It has no public constructor and no mutable report, so copies of
/// the report cannot change what `apply` checks.
#[derive(Debug)]
pub struct ChangeReview {
    proposal: ChangeProposal,
    result: Result<PolicyReview, Diagnostic>,
    limits: ReviewLimits,
}

impl ChangeReview {
    #[verifier::type_invariant]
    closed spec fn valid(self) -> bool {
        preview_ok(self.proposal, self.limits, self.result)
    }

    pub closed spec fn spec_proposal(&self) -> ChangeProposal { self.proposal }
    pub closed spec fn spec_result(&self) -> Result<PolicyReview, Diagnostic> { self.result }
    pub closed spec fn spec_limits(&self) -> ReviewLimits { self.limits }

    pub fn proposal(&self) -> (r: &ChangeProposal)
        ensures *r == self.spec_proposal(),
    {
        &self.proposal
    }

    /// The review, or why none is available.
    pub fn report(&self) -> (r: Result<&PolicyReview, &Diagnostic>)
        ensures
            match (r, self.spec_result()) {
                (Ok(a), Ok(b)) => *a == b,
                (Err(a), Err(b)) => *a == b,
                _ => false,
            },
            preview_ok(self.spec_proposal(), self.spec_limits(), self.spec_result()),
    {
        proof { use_type_invariant(self); }
        match &self.result {
            Ok(v) => Ok(v),
            Err(d) => Err(d),
        }
    }
}

/// Law: a review that `apply` accepts ran the candidate's own cases on the compiled
/// candidate, at least one, and every one passed; it replayed every case of the base on the
/// candidate with none failing to execute; and unless changed values were acknowledged,
/// every replayed case passed.
pub proof fn lemma_accepted_review_is_verified(review: ChangeReview, historical: HistoricalPolicy)
    requires
        apply_refusal(review, historical) is None,
        preview_ok(review.spec_proposal(), review.spec_limits(), review.spec_result()),
    ensures
        review.spec_proposal().spec_base().spec_compiled() is Ok,
        review.spec_proposal().spec_candidate().spec_compiled() is Ok,
        review.spec_result() is Ok,
        ({
            let rv = review.spec_result()->Ok_0;
            let c = review.spec_proposal().spec_candidate();
            let b = review.spec_proposal().spec_base();
            &&& rv.candidate_results@.len() > 0
            &&& forall|i: int| 0 <= i < rv.candidate_results@.len() ==> (#[trigger] rv.candidate_results@[i]).passed
            &&& suite_ok(c.spec_compiled()->Ok_0, c.spec_document().cases@, review.spec_limits(), rv.candidate_results@)
            &&& forall|i: int| 0 <= i < rv.historical_results@.len() ==> (#[trigger] rv.historical_results@[i]).outcome.result is Ok
            &&& suite_ok(c.spec_compiled()->Ok_0, b.spec_document().cases@, review.spec_limits(), rv.historical_results@)
            &&& historical == HistoricalPolicy::Preserve ==>
                forall|i: int| 0 <= i < rv.historical_results@.len() ==> (#[trigger] rv.historical_results@[i]).passed
        }),
{
}

} // verus!
