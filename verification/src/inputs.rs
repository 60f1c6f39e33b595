//! Typed host inputs for the expression engine: schemas, identifiers and argument validation.
use vstd::prelude::*;
use crate::collections::IdMap;
use crate::text::{utf8_len, is_control, is_unicode_space, is_word_start, is_word_char, chars_of, count_utf8_bounded, control, unicode_space, word_start, word_char, chars_equal, str_equal, push_str};
use crate::{Diagnostic, Span, Type, Value, ValueModel, model_type, in_domain, MAX_INT};

verus! {

/// Most declared inputs, bound values, or ports per policy.
pub const MAX_INPUTS: usize = 256;
/// Largest cumulative UTF-16 payload of one set of bound text values.
pub const MAX_INPUT_TEXT_UNITS: usize = 262_144;

/// Values bound by stable input ID.
pub type InputBindings = IdMap<Value>;

/// Declared input types: the three base types, and two refinements of `Int`.
#[derive(Clone, Copy, Debug, PartialEq, Eq, Structural)]
pub enum InputType { Int, PositiveInt, NonNegativeInt, Bool, String }

impl InputType {
    pub open spec fn spec_name(self) -> Seq<char> {
        match self {
            InputType::Int => "Int"@, InputType::PositiveInt => "PositiveInt"@,
            InputType::NonNegativeInt => "NonNegativeInt"@, InputType::Bool => "Bool"@,
            InputType::String => "String"@,
        }
    }

    pub open spec fn spec_base_type(self) -> Type {
        match self { InputType::Bool => Type::Bool, InputType::String => Type::String, _ => Type::Int }
    }

    /// Whether an integer satisfies this type's refinement.
    pub open spec fn admits_int(self, n: int) -> bool {
        match self { InputType::PositiveInt => n > 0, InputType::NonNegativeInt => n >= 0, _ => true }
    }

    /// The type's name.
    pub fn name(self) -> (s: &'static str)
        ensures s@ == self.spec_name(),
    {
        match self {
            InputType::Int => "Int", InputType::PositiveInt => "PositiveInt",
            InputType::NonNegativeInt => "NonNegativeInt", InputType::Bool => "Bool",
            InputType::String => "String",
        }
    }

    /// The base type a value of this input type has.
    pub fn base_type(self) -> (t: Type)
        ensures t == self.spec_base_type(),
    {
        match self { InputType::Bool => Type::Bool, InputType::String => Type::String, _ => Type::Int }
    }

    /// The input type with the given name.
    pub fn from_name(name: &str) -> (r: Option<Self>)
        ensures
            r matches Some(t) ==> t.spec_name() == name@,
            r is None ==> forall|t: InputType| t.spec_name() != name@,
    {
        proof {
            reveal_strlit("Int"); reveal_strlit("PositiveInt"); reveal_strlit("NonNegativeInt");
            reveal_strlit("Bool"); reveal_strlit("String");
        }
        if str_equal(name, "Int") { Some(InputType::Int) }
        else if str_equal(name, "PositiveInt") { Some(InputType::PositiveInt) }
        else if str_equal(name, "NonNegativeInt") { Some(InputType::NonNegativeInt) }
        else if str_equal(name, "Bool") { Some(InputType::Bool) }
        else if str_equal(name, "String") { Some(InputType::String) }
        else { None }
    }
}

/// One declared input: stable ID, source-facing name, and type.
#[derive(Clone, Debug, PartialEq, Eq)]
pub struct InputSpec { pub id: String, pub name: String, pub input_type: InputType }

impl InputSpec {
    pub fn new(id: &str, name: &str, input_type: InputType) -> (s: Self)
        ensures s.id@ == id@, s.name@ == name@, s.input_type == input_type,
    {
        InputSpec { id: id.to_owned(), name: name.to_owned(), input_type }
    }

    /// An equal copy.
    pub fn duplicate(&self) -> (s: Self)
        ensures s.id@ == self.id@, s.name@ == self.name@, s.input_type == self.input_type,
    {
        InputSpec { id: self.id.clone(), name: self.name.clone(), input_type: self.input_type }
    }
}

/// An input reference is a real syntax node; its name never substitutes source text.
#[derive(Clone, Debug, PartialEq, Eq)]
pub struct InputReference { pub id: String, pub name: String, pub span: Span }

/// The span used for diagnostics about host-supplied metadata.
pub open spec fn spec_boundary_span() -> Span { Span { start: 0, end: 0, line: 1, column: 1 } }

pub(crate) fn boundary_span() -> (s: Span)
    ensures s == spec_boundary_span(),
{
    Span { start: 0, end: 0, line: 1, column: 1 }
}

/// A stable identifier: nonempty, at most 128 UTF-8 bytes, no control or white-space characters.
pub open spec fn spec_valid_id(s: Seq<char>) -> bool {
    &&& s.len() > 0
    &&& utf8_len(s) <= 128
    &&& forall|i: int| 0 <= i < s.len() ==> !is_control(#[trigger] s[i]) && !is_unicode_space(s[i])
}

/// Words of the expression language that cannot name an input.
pub open spec fn is_reserved(s: Seq<char>) -> bool {
    s == seq!['i', 'f'] || s == seq!['t', 'h', 'e', 'n'] || s == seq!['e', 'l', 's', 'e']
        || s == seq!['t', 'r', 'u', 'e'] || s == seq!['f', 'a', 'l', 's', 'e']
        || s == seq!['a', 'n', 'd'] || s == seq!['o', 'r'] || s == seq!['n', 'o', 't']
}

/// A source-facing input name: an identifier of at most 128 bytes that is not a reserved word.
pub open spec fn spec_valid_name(s: Seq<char>) -> bool {
    &&& utf8_len(s) <= 128
    &&& s.len() > 0
    &&& is_word_start(s[0])
    &&& forall|i: int| 1 <= i < s.len() ==> is_word_char(#[trigger] s[i])
    &&& !is_reserved(s)
}

/// A valid input schema: at most 256 inputs, valid IDs and names, no repeated ID or name.
pub open spec fn schema_ok(specs: Seq<InputSpec>) -> bool {
    &&& specs.len() <= MAX_INPUTS
    &&& forall|i: int| 0 <= i < specs.len() ==> spec_valid_id((#[trigger] specs[i]).id@) && spec_valid_name(specs[i].name@)
    &&& forall|i: int, j: int| 0 <= i < j < specs.len() ==> (#[trigger] specs[i]).id@ != (#[trigger] specs[j]).id@ && specs[i].name@ != specs[j].name@
}

/// Whether `s` is a stable identifier.
pub fn valid_id(s: &str) -> (r: bool)
    ensures r == spec_valid_id(s@),
{
    let cs = chars_of(s);
    valid_id_chars(&cs)
}

pub(crate) fn valid_id_chars(cs: &Vec<char>) -> (r: bool)
    ensures r == spec_valid_id(cs@),
{
    if cs.len() == 0 { return false; }
    if count_utf8_bounded(cs.as_slice(), 128).is_none() { return false; }
    let mut i: usize = 0;
    while i < cs.len()
        invariant
            i <= cs@.len(),
            forall|j: int| 0 <= j < i ==> !is_control(#[trigger] cs@[j]) && !is_unicode_space(cs@[j]),
        decreases cs@.len() - i,
    {
        if control(cs[i]) || unicode_space(cs[i]) { return false; }
        i += 1;
    }
    true
}

fn reserved(cs: &Vec<char>) -> (r: bool)
    ensures r == is_reserved(cs@),
{
    let n = cs.len();
    let r = if n == 2 {
        (cs[0] == 'i' && cs[1] == 'f') || (cs[0] == 'o' && cs[1] == 'r')
    } else if n == 3 {
        (cs[0] == 'a' && cs[1] == 'n' && cs[2] == 'd') || (cs[0] == 'n' && cs[1] == 'o' && cs[2] == 't')
    } else if n == 4 {
        (cs[0] == 't' && cs[1] == 'h' && cs[2] == 'e' && cs[3] == 'n')
            || (cs[0] == 'e' && cs[1] == 'l' && cs[2] == 's' && cs[3] == 'e')
            || (cs[0] == 't' && cs[1] == 'r' && cs[2] == 'u' && cs[3] == 'e')
    } else if n == 5 {
        cs[0] == 'f' && cs[1] == 'a' && cs[2] == 'l' && cs[3] == 's' && cs[4] == 'e'
    } else {
        false
    };
    proof {
        if r {
            if n == 2 { if cs@[0] == 'i' { assert(cs@ =~= seq!['i', 'f']); } else { assert(cs@ =~= seq!['o', 'r']); } }
            if n == 3 { if cs@[0] == 'a' { assert(cs@ =~= seq!['a', 'n', 'd']); } else { assert(cs@ =~= seq!['n', 'o', 't']); } }
            if n == 4 {
                if cs@[1] == 'h' { assert(cs@ =~= seq!['t', 'h', 'e', 'n']); }
                else if cs@[0] == 'e' { assert(cs@ =~= seq!['e', 'l', 's', 'e']); }
                else { assert(cs@ =~= seq!['t', 'r', 'u', 'e']); }
            }
            if n == 5 { assert(cs@ =~= seq!['f', 'a', 'l', 's', 'e']); }
        } else {
            assert(cs@ != seq!['i', 'f']);
            assert(cs@ != seq!['o', 'r']);
            assert(cs@ != seq!['a', 'n', 'd']);
            assert(cs@ != seq!['n', 'o', 't']);
            assert(cs@ != seq!['t', 'h', 'e', 'n']);
            assert(cs@ != seq!['e', 'l', 's', 'e']);
            assert(cs@ != seq!['t', 'r', 'u', 'e']);
            assert(cs@ != seq!['f', 'a', 'l', 's', 'e']);
        }
    }
    r
}

pub(crate) fn valid_name_chars(cs: &Vec<char>) -> (r: bool)
    ensures r == spec_valid_name(cs@),
{
    if count_utf8_bounded(cs.as_slice(), 128).is_none() { return false; }
    if cs.len() == 0 || !word_start(cs[0]) { return false; }
    let mut i: usize = 1;
    while i < cs.len()
        invariant
            1 <= i <= cs@.len(),
            forall|j: int| 1 <= j < i ==> is_word_char(#[trigger] cs@[j]),
        decreases cs@.len() - i,
    {
        if !word_char(cs[i]) { return false; }
        i += 1;
    }
    !reserved(cs)
}

/// Validates an input schema.
pub(crate) fn check_schema(specs: &[InputSpec]) -> (r: Result<(), Diagnostic>)
    ensures
        r is Ok <==> schema_ok(specs@),
        r matches Err(d) ==> d.code == "INPUT_SCHEMA" && d.span == spec_boundary_span(),
{
    if specs.len() > MAX_INPUTS {
        return Err(Diagnostic::new("INPUT_SCHEMA", String::from_str("At most 256 inputs are supported."), boundary_span()));
    }
    let mut ids: Vec<Vec<char>> = Vec::new();
    let mut names: Vec<Vec<char>> = Vec::new();
    let mut i: usize = 0;
    while i < specs.len()
        invariant
            i <= specs@.len(), specs@.len() <= MAX_INPUTS,
            ids@.len() == i, names@.len() == i,
            forall|j: int| 0 <= j < i ==> (#[trigger] ids@[j])@ == specs@[j].id@ && names@[j]@ == specs@[j].name@,
            forall|j: int| 0 <= j < i ==> spec_valid_id((#[trigger] specs@[j]).id@) && spec_valid_name(specs@[j].name@),
            forall|a: int, b: int| 0 <= a < b < i ==> (#[trigger] specs@[a]).id@ != (#[trigger] specs@[b]).id@ && specs@[a].name@ != specs@[b].name@,
        decreases specs@.len() - i,
    {
        let id = chars_of(specs[i].id.as_str());
        let name = chars_of(specs[i].name.as_str());
        if !valid_id_chars(&id) || !valid_name_chars(&name) {
            let mut m = String::from_str("Invalid input ID or name: ");
            push_str(&mut m, specs[i].id.as_str());
            push_str(&mut m, ".");
            return Err(Diagnostic::new("INPUT_SCHEMA", m, boundary_span()));
        }
        let mut j: usize = 0;
        while j < i
            invariant
                j <= i, i < specs@.len(),
                ids@.len() == i, names@.len() == i,
                forall|k: int| 0 <= k < i ==> (#[trigger] ids@[k])@ == specs@[k].id@ && names@[k]@ == specs@[k].name@,
                id@ == specs@[i as int].id@, name@ == specs@[i as int].name@,
                forall|k: int| 0 <= k < j ==> (#[trigger] specs@[k]).id@ != specs@[i as int].id@ && specs@[k].name@ != specs@[i as int].name@,
            decreases i - j,
        {
            if chars_equal(ids[j].as_slice(), id.as_slice()) || chars_equal(names[j].as_slice(), name.as_slice()) {
                let mut m = String::from_str("Duplicate input ID or name: ");
                push_str(&mut m, specs[i].id.as_str());
                push_str(&mut m, ".");
                return Err(Diagnostic::new("INPUT_SCHEMA", m, boundary_span()));
            }
            j += 1;
        }
        ids.push(id);
        names.push(name);
        i += 1;
    }
    Ok(())
}

/// The first problem, if any, with the bound values of inputs `i..`, given `units` text
/// units already used: a missing value, a value of the wrong type, an integer outside the
/// language domain, a violated refinement, or an exceeded cumulative text budget.
pub open spec fn binding_problem(inputs: Seq<InputSpec>, b: IdMap<Value>, i: int, units: int) -> Option<&'static str>
    decreases inputs.len() - i,
{
    if i < 0 || i >= inputs.len() {
        None
    } else {
        let s = inputs[i];
        if !b.has(s.id@) {
            Some("MISSING_INPUT")
        } else {
            let v = b.at(s.id@)@;
            if model_type(v) != s.input_type.spec_base_type() {
                Some("TYPE_ERROR")
            } else {
                match v {
                    ValueModel::Int(n) => if !in_domain(n as int) {
                        Some("INTEGER_RANGE")
                    } else if !s.input_type.admits_int(n as int) {
                        Some("REFINEMENT_VIOLATION")
                    } else {
                        binding_problem(inputs, b, i + 1, units)
                    },
                    ValueModel::Text(t) => if units + t.len() > MAX_INPUT_TEXT_UNITS {
                        Some("INPUT_LIMIT")
                    } else {
                        binding_problem(inputs, b, i + 1, units + t.len())
                    },
                    ValueModel::Bool(_) => binding_problem(inputs, b, i + 1, units),
                }
            }
        }
    }
}

/// Whether some bound ID is not declared.
pub open spec fn has_undeclared(inputs: Seq<InputSpec>, b: IdMap<Value>) -> bool {
    exists|k: int| 0 <= k < b.keys().len() && !declares(inputs, #[trigger] b.keys()[k])
}

/// Whether some declared input has ID `id`.
pub open spec fn declares(inputs: Seq<InputSpec>, id: Seq<char>) -> bool {
    exists|i: int| 0 <= i < inputs.len() && (#[trigger] inputs[i]).id@ == id
}

/// The code with which a set of bound values is refused, if it is.
pub open spec fn resolve_problem(inputs: Seq<InputSpec>, b: IdMap<Value>) -> Option<&'static str> {
    if b.keys().len() > MAX_INPUTS { Some("INPUT_LIMIT") }
    else if has_undeclared(inputs, b) { Some("UNKNOWN_INPUT") }
    else { binding_problem(inputs, b, 0, 0) }
}

/// Values that satisfy the declared inputs, in declaration order.
pub open spec fn well_typed_values(inputs: Seq<InputSpec>, vals: Seq<ValueModel>) -> bool {
    &&& vals.len() == inputs.len()
    &&& forall|i: int| 0 <= i < vals.len() ==> model_type(#[trigger] vals[i]) == inputs[i].input_type.spec_base_type()
        && (vals[i] matches ValueModel::Int(n) ==> in_domain(n as int))
}

/// Validates all bound values, including unused inputs, before any expression executes,
/// and returns them in declaration order.
pub(crate) fn resolve<'a>(inputs: &[InputSpec], bindings: &'a InputBindings) -> (r: Result<Vec<&'a Value>, Diagnostic>)
    ensures
        r is Ok <==> resolve_problem(inputs@, *bindings) is None,
        r matches Err(d) ==> Some(d.code) == resolve_problem(inputs@, *bindings) && d.span == spec_boundary_span(),
        r matches Ok(vals) ==> vals@.len() == inputs@.len()
            && (forall|i: int| 0 <= i < vals@.len() ==> (#[trigger] vals@[i])@ == bindings.at(inputs@[i].id@)@)
            && well_typed_values(inputs@, vals@.map_values(|v: &Value| v@)),
{
    if bindings.len() > MAX_INPUTS {
        return Err(Diagnostic::new("INPUT_LIMIT", String::from_str("Too many input values."), boundary_span()));
    }
    let entries = bindings.entries();
    let mut k: usize = 0;
    while k < entries.len()
        invariant
            k <= entries@.len(),
            entries@.len() == bindings.keys().len(),
            forall|j: int| 0 <= j < entries@.len() ==> (#[trigger] entries@[j]).0@ == bindings.keys()[j],
            forall|j: int| 0 <= j < k ==> declares(inputs@, #[trigger] bindings.keys()[j]),
            bindings.keys().len() <= MAX_INPUTS,
        decreases entries@.len() - k,
    {
        let mut declared = false;
        let mut i: usize = 0;
        while i < inputs.len()
            invariant
                i <= inputs@.len(), k < entries@.len(),
                declared ==> exists|x: int| 0 <= x < inputs@.len() && (#[trigger] inputs@[x]).id@ == entries@[k as int].0@,
                !declared ==> forall|x: int| 0 <= x < i ==> (#[trigger] inputs@[x]).id@ != entries@[k as int].0@,
            decreases inputs@.len() - i,
        {
            if !declared && str_equal(inputs[i].id.as_str(), entries[k].0.as_str()) {
                declared = true;
            }
            i += 1;
        }
        if !declared {
            let mut m = String::from_str("Unknown input ID ");
            push_str(&mut m, entries[k].0.as_str());
            push_str(&mut m, ".");
            assert(has_undeclared(inputs@, *bindings)) by {
                assert(!declares(inputs@, bindings.keys()[k as int]));
            }
            return Err(Diagnostic::new("UNKNOWN_INPUT", m, boundary_span()));
        }
        k += 1;
    }
    assert(!has_undeclared(inputs@, *bindings)) by {
        assert(forall|j: int| 0 <= j < bindings.keys().len() ==> declares(inputs@, #[trigger] bindings.keys()[j]));
    }
    let mut text_units: usize = 0;
    let mut values: Vec<&'a Value> = Vec::new();
    let mut i: usize = 0;
    while i < inputs.len()
        invariant
            i <= inputs@.len(),
            text_units <= MAX_INPUT_TEXT_UNITS,
            values@.len() == i,
            forall|j: int| 0 <= j < i ==> (#[trigger] values@[j])@ == bindings.at(inputs@[j].id@)@,
            forall|j: int| 0 <= j < i ==> model_type((#[trigger] values@[j])@) == inputs@[j].input_type.spec_base_type()
                && (values@[j]@ matches ValueModel::Int(n) ==> in_domain(n as int)),
            binding_problem(inputs@, *bindings, 0, 0) == binding_problem(inputs@, *bindings, i as int, text_units as int),
            bindings.keys().len() <= MAX_INPUTS,
            !has_undeclared(inputs@, *bindings),
        decreases inputs@.len() - i,
    {
        let input = &inputs[i];
        let value = match bindings.get(input.id.as_str()) {
            Some(v) => v,
            None => {
                let mut m = String::from_str("Missing input ");
                push_str(&mut m, input.id.as_str());
                push_str(&mut m, ".");
                return Err(Diagnostic::new("MISSING_INPUT", m, boundary_span()));
            }
        };
        if value.value_type() != input.input_type.base_type() {
            let mut m = String::from_str("Input ");
            push_str(&mut m, input.id.as_str());
            push_str(&mut m, " requires ");
            push_str(&mut m, input.input_type.name());
            push_str(&mut m, ".");
            return Err(Diagnostic::new("TYPE_ERROR", m, boundary_span()));
        }
        match value {
            Value::Int(n) => {
                if *n < -MAX_INT || *n > MAX_INT {
                    let mut m = String::from_str("Input ");
                    push_str(&mut m, input.id.as_str());
                    push_str(&mut m, " is outside the safe integer range.");
                    return Err(Diagnostic::new("INTEGER_RANGE", m, boundary_span()));
                }
                if (input.input_type == InputType::PositiveInt && *n <= 0)
                    || (input.input_type == InputType::NonNegativeInt && *n < 0) {
                    let mut m = String::from_str("Input ");
                    push_str(&mut m, input.id.as_str());
                    push_str(&mut m, " does not satisfy ");
                    push_str(&mut m, input.input_type.name());
                    push_str(&mut m, ".");
                    return Err(Diagnostic::new("REFINEMENT_VIOLATION", m, boundary_span()));
                }
            }
            Value::Text(text) => {
                if text.len() > MAX_INPUT_TEXT_UNITS - text_units {
                    return Err(Diagnostic::new("INPUT_LIMIT", String::from_str("Input text exceeds the cumulative UTF-16 limit."), boundary_span()));
                }
                text_units = text_units + text.len();
            }
            Value::Bool(_) => {}
        }
        values.push(value);
        i += 1;
    }
    proof {
        assert(values@.map_values(|v: &Value| v@).len() == inputs@.len());
    }
    Ok(values)
}


/// What a declared input is: its ID, its name and its type.
pub open spec fn input_view(s: InputSpec) -> (Seq<char>, Seq<char>, InputType) {
    (s.id@, s.name@, s.input_type)
}

/// The views of a list of declared inputs.
pub open spec fn input_views(s: Seq<InputSpec>) -> Seq<(Seq<char>, Seq<char>, InputType)> {
    s.map_values(|x: InputSpec| input_view(x))
}

/// Validity of a schema depends only on what its inputs are.
pub proof fn lemma_schema_views(a: Seq<InputSpec>, b: Seq<InputSpec>)
    requires input_views(a) == input_views(b), schema_ok(a),
    ensures schema_ok(b),
{
    assert(a.len() == input_views(a).len());
    assert forall|i: int| 0 <= i < b.len() implies spec_valid_id((#[trigger] b[i]).id@) && spec_valid_name(b[i].name@) by {
        assert(input_views(a)[i] == input_views(b)[i]);
        assert(spec_valid_id(a[i].id@) && spec_valid_name(a[i].name@));
    }
    assert forall|i: int, j: int| 0 <= i < j < b.len() implies (#[trigger] b[i]).id@ != (#[trigger] b[j]).id@ && b[i].name@ != b[j].name@ by {
        assert(input_views(a)[i] == input_views(b)[i]);
        assert(input_views(a)[j] == input_views(b)[j]);
        assert(a[i].id@ != a[j].id@ && a[i].name@ != a[j].name@);
    }
}

/// An equal copy of a list of declared inputs.
pub fn copy_specs(inputs: &[InputSpec]) -> (v: Vec<InputSpec>)
    ensures input_views(v@) == input_views(inputs@),
{
    let mut v: Vec<InputSpec> = Vec::new();
    let mut i: usize = 0;
    while i < inputs.len()
        invariant
            i <= inputs@.len(), v@.len() == i,
            forall|j: int| 0 <= j < i ==> input_view(#[trigger] v@[j]) == input_view(inputs@[j]),
        decreases inputs@.len() - i,
    {
        v.push(inputs[i].duplicate());
        i += 1;
    }
    assert(input_views(v@) =~= input_views(inputs@));
    v
}


/// Codes with which bound values can be refused.
pub open spec fn binding_code(c: &'static str) -> bool {
    c == "MISSING_INPUT" || c == "TYPE_ERROR" || c == "INTEGER_RANGE" || c == "REFINEMENT_VIOLATION"
        || c == "INPUT_LIMIT" || c == "UNKNOWN_INPUT"
}

proof fn lemma_binding_problem_codes(inputs: Seq<InputSpec>, b: IdMap<Value>, i: int, units: int)
    ensures binding_problem(inputs, b, i, units) matches Some(c) ==> binding_code(c),
    decreases inputs.len() - i,
{
    if 0 <= i < inputs.len() {
        let s = inputs[i];
        if b.has(s.id@) {
            let v = b.at(s.id@)@;
            match v {
                ValueModel::Text(t) => { lemma_binding_problem_codes(inputs, b, i + 1, units + t.len()); }
                _ => { lemma_binding_problem_codes(inputs, b, i + 1, units); }
            }
        }
    }
}

/// Every refusal of bound values carries one of the binding codes.
pub proof fn lemma_problem_codes(inputs: Seq<InputSpec>, b: IdMap<Value>)
    ensures resolve_problem(inputs, b) matches Some(c) ==> binding_code(c),
{
    lemma_binding_problem_codes(inputs, b, 0, 0);
}


proof fn lemma_binding_has(inputs: Seq<InputSpec>, b: IdMap<Value>, i: int, units: int)
    requires 0 <= i, binding_problem(inputs, b, i, units) is None,
    ensures forall|j: int| i <= j < inputs.len() ==> b.has(#[trigger] inputs[j].id@),
    decreases inputs.len() - i,
{
    if i < inputs.len() {
        let s = inputs[i];
        let v = b.at(s.id@)@;
        match v {
            ValueModel::Text(t) => { lemma_binding_has(inputs, b, i + 1, units + t.len()); }
            _ => { lemma_binding_has(inputs, b, i + 1, units); }
        }
    }
}

/// Accepted bindings bind every declared input.
pub proof fn lemma_resolved_has(inputs: Seq<InputSpec>, b: IdMap<Value>)
    requires resolve_problem(inputs, b) is None,
    ensures forall|j: int| 0 <= j < inputs.len() ==> b.has(#[trigger] inputs[j].id@),
{
    lemma_binding_has(inputs, b, 0, 0);
}

} // verus!
