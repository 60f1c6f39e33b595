//! Lexing, parsing and type checking of the expression language into a validated arena.
use vstd::prelude::*;
use crate::inputs::{InputType, check_schema, schema_ok, InputReference, InputSpec, input_views, copy_specs, lemma_schema_views, spec_boundary_span, boundary_span};
use crate::text::{utf16_len, chars_of, count_utf16_bounded, string_of, chars_equal, str_equal, push_str};
use crate::lexer::{Sym, Token, TokenKind, TokenView, Lexeme, token_ok, tokens_ok, token_views, slice_chars, tokenize, lex};
use crate::{Diagnostic, Refusal, Span, Type, Value, ValueModel, model_type, in_domain, MAX_DEPTH, MAX_INT,
    MAX_SOURCE_UNITS, MAX_TOKENS};

verus! {

/// Operators of the language.
#[derive(Clone, Copy, Debug, PartialEq, Eq, Structural)]
pub enum Op { Add, Sub, Mul, Lt, Le, Gt, Ge, Eq, Ne, And, Or, Neg, Not }

impl Op {
    pub open spec fn spec_label(self) -> &'static str {
        match self {
            Op::Add => "+", Op::Sub => "-", Op::Neg => "-", Op::Mul => "*", Op::Lt => "<", Op::Le => "<=",
            Op::Gt => ">", Op::Ge => ">=", Op::Eq => "==", Op::Ne => "!=", Op::And => "and",
            Op::Or => "or", Op::Not => "not",
        }
    }

    pub fn label(self) -> (s: &'static str)
        ensures s == self.spec_label(),
    {
        match self {
            Op::Add => "+", Op::Sub => "-", Op::Neg => "-", Op::Mul => "*", Op::Lt => "<", Op::Le => "<=",
            Op::Gt => ">", Op::Ge => ">=", Op::Eq => "==", Op::Ne => "!=", Op::And => "and",
            Op::Or => "or", Op::Not => "not",
        }
    }
}

#[derive(Clone, Debug)]
pub enum NodeKind { Input(usize), Literal(Value), Unary(Op, usize), Binary(Op, usize, usize), If(usize, usize, usize) }

#[derive(Clone, Debug)]
pub struct Node { pub kind: NodeKind, pub span: Span, pub ty: Type, pub depth: usize }

/// Operand and result types that a binary operator accepts.
pub open spec fn binary_types(op: Op, l: Type, r: Type, t: Type) -> bool {
    match op {
        Op::Add | Op::Sub | Op::Mul => l == Type::Int && r == Type::Int && t == Type::Int,
        Op::And | Op::Or => l == Type::Bool && r == Type::Bool && t == Type::Bool,
        Op::Eq | Op::Ne => l == r && t == Type::Bool,
        Op::Lt | Op::Le | Op::Gt | Op::Ge => l == Type::Int && r == Type::Int && t == Type::Bool,
        Op::Neg | Op::Not => false,
    }
}

/// Operand and result types that a unary operator accepts.
pub open spec fn unary_types(op: Op, c: Type, t: Type) -> bool {
    match op {
        Op::Neg => c == Type::Int && t == Type::Int,
        Op::Not => c == Type::Bool && t == Type::Bool,
        _ => false,
    }
}

pub open spec fn max2(a: int, b: int) -> int { if a >= b { a } else { b } }

/// Node `i` refers only to earlier nodes and declared inputs, is well typed, has the depth
/// of its subtree, and lies within the source.
pub open spec fn node_ok(nodes: Seq<Node>, inputs: Seq<InputSpec>, i: int, units: nat) -> bool {
    let n = nodes[i];
    &&& n.span.end <= units
    &&& 1 <= n.depth <= MAX_DEPTH
    &&& match n.kind {
        NodeKind::Input(k) => k < inputs.len() && n.ty == inputs[k as int].input_type.spec_base_type() && n.depth == 1,
        NodeKind::Literal(v) => n.ty == model_type(v@) && (v@ matches ValueModel::Int(x) ==> in_domain(x as int)) && n.depth == 1,
        NodeKind::Unary(op, c) => c < i && unary_types(op, nodes[c as int].ty, n.ty)
            && n.depth == nodes[c as int].depth + 1,
        NodeKind::Binary(op, l, r) => l < i && r < i && binary_types(op, nodes[l as int].ty, nodes[r as int].ty, n.ty)
            && n.depth == max2(nodes[l as int].depth as int, nodes[r as int].depth as int) + 1,
        NodeKind::If(c, y, e) => c < i && y < i && e < i && nodes[c as int].ty == Type::Bool
            && nodes[y as int].ty == n.ty && nodes[e as int].ty == n.ty
            && n.depth == max2(max2(nodes[c as int].depth as int, nodes[y as int].depth as int), nodes[e as int].depth as int) + 1,
    }
}

pub open spec fn arena_ok(nodes: Seq<Node>, inputs: Seq<InputSpec>, units: nat) -> bool {
    forall|i: int| 0 <= i < nodes.len() ==> #[trigger] node_ok(nodes, inputs, i, units)
}

/// A node kind whose references are valid in an arena of `n` nodes and `k` inputs.
pub open spec fn kind_refs_ok(kind: NodeKind, n: nat, k: nat) -> bool {
    match kind {
        NodeKind::Input(i) => i < k,
        NodeKind::Literal(v) => v@ matches ValueModel::Int(x) ==> in_domain(x as int),
        NodeKind::Unary(_, c) => c < n,
        NodeKind::Binary(_, l, r) => l < n && r < n,
        NodeKind::If(c, y, e) => c < n && y < n && e < n,
    }
}

/// Whether `p` is what `source` compiles to against the declared inputs `ins`: the same
/// source and inputs, and the arena and root that the grammar and typing rules give.
pub open spec fn compiled_from(p: CompiledExpression, source: Seq<char>, ins: Seq<InputView>) -> bool {
    &&& p.spec_source() == source
    &&& input_views(p.spec_inputs()) == ins
    &&& compiled(source, ins) == Ok::<(Seq<NodeView>, nat), Refusal>((node_views(p.spec_nodes()), p.spec_root() as nat))
}

/// Opaque, validated arena: callers cannot insert cycles, untyped nodes, or out-of-range
/// integers, and the arena is the one its source compiles to.
#[derive(Debug)]
pub struct CompiledExpression {
    pub(crate) nodes: Vec<Node>,
    pub(crate) root: usize,
    source: String,
    inputs: Vec<InputSpec>,
}

impl CompiledExpression {
    #[verifier::type_invariant]
    pub closed spec fn wf(&self) -> bool {
        &&& self.root < self.nodes@.len()
        &&& arena_ok(self.nodes@, self.inputs@, utf16_len(self.source@))
        &&& schema_ok(self.inputs@)
        &&& utf16_len(self.source@) <= MAX_SOURCE_UNITS
        &&& compiled(self.source@, input_views(self.inputs@)) == Ok::<(Seq<NodeView>, nat), Refusal>((node_views(self.nodes@), self.root as nat))
    }

    /// The nodes of the arena; every node refers only to earlier ones.
    pub closed spec fn spec_nodes(&self) -> Seq<Node> { self.nodes@ }

    /// The index of the root node.
    pub closed spec fn spec_root(&self) -> int { self.root as int }

    /// What the type invariant guarantees.
    pub proof fn lemma_wf(&self)
        requires self.wf(),
        ensures
            0 <= self.spec_root() < self.spec_nodes().len(),
            arena_ok(self.spec_nodes(), self.spec_inputs(), utf16_len(self.spec_source())),
            schema_ok(self.spec_inputs()),
            utf16_len(self.spec_source()) <= MAX_SOURCE_UNITS,
            compiled_from(*self, self.spec_source(), input_views(self.spec_inputs())),
    {}

    /// The declared inputs.
    pub closed spec fn spec_inputs(&self) -> Seq<InputSpec> { self.inputs@ }

    /// The exact source text.
    pub closed spec fn spec_source(&self) -> Seq<char> { self.source@ }

    /// The type of the expression.
    pub closed spec fn spec_type(&self) -> Type { self.nodes@[self.root as int].ty }

    /// The span of the whole expression.
    pub closed spec fn spec_span(&self) -> Span { self.nodes@[self.root as int].span }

    pub(crate) fn node_at(&self, i: usize) -> (n: &Node)
        requires i < self.spec_nodes().len(),
        ensures *n == self.spec_nodes()[i as int],
    {
        &self.nodes[i]
    }

    pub(crate) fn root_index(&self) -> (r: usize)
        ensures r == self.spec_root(),
    {
        self.root
    }

    /// The declared inputs.
    pub fn inputs(&self) -> (r: &[InputSpec])
        ensures r@ == self.spec_inputs(), schema_ok(r@),
    {
        proof { use_type_invariant(self); }
        self.inputs.as_slice()
    }

    /// The exact source text.
    pub fn source(&self) -> (r: &str)
        ensures r@ == self.spec_source(),
    {
        self.source.as_str()
    }

    /// The type of the expression.
    pub fn value_type(&self) -> (t: Type)
        ensures t == self.spec_type(),
    {
        proof { use_type_invariant(self); }
        self.nodes[self.root].ty
    }

    /// The span of the whole expression.
    pub fn span(&self) -> (s: Span)
        ensures s == self.spec_span(), s.end <= utf16_len(self.spec_source()),
    {
        proof { use_type_invariant(self); assert(node_ok(self.nodes@, self.inputs@, self.root as int, utf16_len(self.source@))); }
        self.nodes[self.root].span
    }
}

/// What a node of the arena is: its shape, span, type and depth.
pub enum NodeShape { Input(nat), Literal(ValueModel), Unary(Op, nat), Binary(Op, nat, nat), If(nat, nat, nat) }

pub struct NodeView { pub shape: NodeShape, pub span: Span, pub ty: Type, pub depth: nat }

pub open spec fn shape_of(k: NodeKind) -> NodeShape {
    match k {
        NodeKind::Input(i) => NodeShape::Input(i as nat),
        NodeKind::Literal(v) => NodeShape::Literal(v@),
        NodeKind::Unary(op, c) => NodeShape::Unary(op, c as nat),
        NodeKind::Binary(op, l, r) => NodeShape::Binary(op, l as nat, r as nat),
        NodeKind::If(c, y, e) => NodeShape::If(c as nat, y as nat, e as nat),
    }
}

pub open spec fn node_view(n: Node) -> NodeView {
    NodeView { shape: shape_of(n.kind), span: n.span, ty: n.ty, depth: n.depth as nat }
}

pub open spec fn node_views(ns: Seq<Node>) -> Seq<NodeView> {
    ns.map_values(|n: Node| node_view(n))
}

/// A declared input as the grammar sees it: ID, name and type.
pub type InputView = (Seq<char>, Seq<char>, InputType);

/// Where the parser stands: the next token, and the arena built so far.
pub struct ParseState { pub index: nat, pub nodes: Seq<NodeView> }

pub open spec fn type_mismatch(span: Span) -> Refusal {
    Refusal { code: "TYPE_MISMATCH", message: "Expression operand types are incompatible."@, span }
}

pub open spec fn parse_refusal(message: Seq<char>, span: Span) -> Refusal {
    Refusal { code: "PARSE_ERROR", message, span }
}

/// The operand and result types of a binary operator, given its left operand's type.
pub open spec fn binary_signature(op: Op, left: Type) -> (Type, Type) {
    match op {
        Op::Add | Op::Sub | Op::Mul => (Type::Int, Type::Int),
        Op::And | Op::Or => (Type::Bool, Type::Bool),
        Op::Eq | Op::Ne => (left, Type::Bool),
        _ => (Type::Int, Type::Bool),
    }
}

/// The type and depth of a new node, by the typing rules, or the type error.
pub open spec fn typing(ins: Seq<InputView>, nodes: Seq<NodeView>, shape: NodeShape, span: Span) -> Result<(Type, nat), Refusal> {
    match shape {
        NodeShape::Input(k) => Ok((ins[k as int].2.spec_base_type(), 1)),
        NodeShape::Literal(v) => Ok((model_type(v), 1)),
        NodeShape::Unary(op, c) => {
            let target = if op == Op::Neg { Type::Int } else { Type::Bool };
            if nodes[c as int].ty != target { Err(type_mismatch(span)) } else { Ok((target, nodes[c as int].depth + 1)) }
        }
        NodeShape::Binary(op, l, r) => {
            let (want, result) = binary_signature(op, nodes[l as int].ty);
            if nodes[l as int].ty != want {
                Err(type_mismatch(nodes[l as int].span))
            } else if nodes[r as int].ty != want {
                Err(type_mismatch(nodes[r as int].span))
            } else {
                Ok((result, (max2(nodes[l as int].depth as int, nodes[r as int].depth as int) + 1) as nat))
            }
        }
        NodeShape::If(c, y, e) => {
            if nodes[c as int].ty != Type::Bool {
                Err(type_mismatch(nodes[c as int].span))
            } else if nodes[y as int].ty != nodes[e as int].ty {
                Err(type_mismatch(span))
            } else {
                Ok((nodes[y as int].ty,
                    (max2(max2(nodes[c as int].depth as int, nodes[y as int].depth as int), nodes[e as int].depth as int) + 1) as nat))
            }
        }
    }
}

/// Adds a type-checked node to the arena: the new state and the node's index.
pub open spec fn add_node(ins: Seq<InputView>, st: ParseState, shape: NodeShape, span: Span) -> Result<(ParseState, nat), Refusal> {
    match typing(ins, st.nodes, shape, span) {
        Err(f) => Err(f),
        Ok((ty, depth)) => if depth > MAX_DEPTH {
            Err(parse_refusal("Expression tree depth exceeds 128."@, span))
        } else {
            Ok((ParseState { index: st.index, nodes: st.nodes.push(NodeView { shape, span, ty, depth }) }, st.nodes.len()))
        },
    }
}

/// The first declared input at or after `i` with the given name.
pub open spec fn find_input(ins: Seq<InputView>, name: Seq<char>, i: nat) -> Option<nat>
    decreases ins.len() - i,
{
    if i >= ins.len() { None } else if ins[i as int].1 == name { Some(i) } else { find_input(ins, name, i + 1) }
}

/// How a token begins an operand.
pub enum LeadView { Literal(ValueModel), Open, Negate, Invert, Conditional, Input(nat), Unknown(Seq<char>), Other }

pub open spec fn lead_of(t: TokenView, ins: Seq<InputView>) -> LeadView {
    match t.kind {
        Lexeme::Literal(v) => LeadView::Literal(v),
        Lexeme::Symbol(s) => if s == Sym::LParen { LeadView::Open } else if s == Sym::Minus { LeadView::Negate }
            else if s == Sym::Bang { LeadView::Invert } else { LeadView::Other },
        Lexeme::Word(w) => if w == "not"@ { LeadView::Invert } else if w == "if"@ { LeadView::Conditional }
            else { match find_input(ins, w, 0) { Some(i) => LeadView::Input(i), None => LeadView::Unknown(w) } },
        Lexeme::End => LeadView::Other,
    }
}

/// The binary operator that a token spells, with its precedence (1 binds loosest).
pub open spec fn binop_of(t: TokenView) -> Option<(nat, Op)> {
    match t.kind {
        Lexeme::Symbol(s) => match s {
            Sym::OrOr => Some((1nat, Op::Or)), Sym::AndAnd => Some((2nat, Op::And)),
            Sym::EqEq => Some((3nat, Op::Eq)), Sym::Ne => Some((3nat, Op::Ne)),
            Sym::Lt => Some((4nat, Op::Lt)), Sym::Le => Some((4nat, Op::Le)),
            Sym::Gt => Some((4nat, Op::Gt)), Sym::Ge => Some((4nat, Op::Ge)),
            Sym::Plus => Some((5nat, Op::Add)), Sym::Minus => Some((5nat, Op::Sub)),
            Sym::Star => Some((6nat, Op::Mul)),
            _ => None,
        },
        Lexeme::Word(w) => if w == "or"@ { Some((1nat, Op::Or)) } else if w == "and"@ { Some((2nat, Op::And)) } else { None },
        _ => None,
    }
}

/// Consumes the symbol `sym`, or refuses: "Expected" and `text`.
pub open spec fn expect_symbol(ts: Seq<TokenView>, st: ParseState, sym: Sym, text: Seq<char>) -> Result<ParseState, Refusal> {
    if ts[st.index as int].kind == Lexeme::Symbol(sym) {
        Ok(ParseState { index: st.index + 1, nodes: st.nodes })
    } else {
        Err(parse_refusal("Expected "@ + text + "."@, ts[st.index as int].span))
    }
}

/// Consumes the word `text`, or refuses: "Expected" and `text`.
pub open spec fn expect_word(ts: Seq<TokenView>, st: ParseState, text: Seq<char>) -> Result<ParseState, Refusal> {
    if ts[st.index as int].kind == Lexeme::Word(text) {
        Ok(ParseState { index: st.index + 1, nodes: st.nodes })
    } else {
        Err(parse_refusal("Expected "@ + text + "."@, ts[st.index as int].span))
    }
}

/// Where the last consumed token ends.
pub open spec fn consumed_end(ts: Seq<TokenView>, st: ParseState) -> usize {
    ts[if st.index == 0 { 0int } else { st.index - 1 }].span.end
}

/// The span from `start` to `end`, positioned at `start`.
pub open spec fn span_to(start: Span, end: usize) -> Span {
    Span { start: start.start, end, line: start.line, column: start.column }
}

/// How many more nesting levels are allowed at `nesting`.
pub open spec fn room(nesting: nat) -> nat {
    if nesting <= MAX_DEPTH + 1 { (MAX_DEPTH + 1 - nesting) as nat } else { 0 }
}

/// An expression whose binary operators bind at least as tightly as `min`, one level
/// of nesting deeper: the state after it and its node.
pub open spec fn parse_expression(ts: Seq<TokenView>, ins: Seq<InputView>, st: ParseState, nesting: nat, min: nat)
    -> Result<(ParseState, nat), Refusal>
    decreases room(nesting), 0nat, 0nat,
{
    if nesting >= MAX_DEPTH {
        Err(parse_refusal("Expression nesting exceeds 128."@, ts[st.index as int].span))
    } else {
        parse_operation(ts, ins, st, nesting + 1, min)
    }
}

/// An operand, then the binary operators of precedence at least `min` that follow it.
pub open spec fn parse_operation(ts: Seq<TokenView>, ins: Seq<InputView>, st: ParseState, nesting: nat, min: nat)
    -> Result<(ParseState, nat), Refusal>
    decreases room(nesting), 2nat, 0nat,
{
    match parse_operand(ts, ins, st, nesting) {
        Err(f) => Err(f),
        Ok((st2, left)) => parse_operators(ts, ins, st2, nesting, min, left),
    }
}

/// An operand: a literal, an input, a parenthesized expression, a negation, or a
/// conditional; the operands of `-`, `!` and `not` bind more tightly than any binary operator.
pub open spec fn parse_operand(ts: Seq<TokenView>, ins: Seq<InputView>, st: ParseState, nesting: nat)
    -> Result<(ParseState, nat), Refusal>
    decreases room(nesting), 1nat, 0nat,
{
    let start = ts[st.index as int].span;
    let st1 = ParseState { index: st.index + 1, nodes: st.nodes };
    match lead_of(ts[st.index as int], ins) {
        LeadView::Other => Err(parse_refusal("Expected an expression."@, start)),
        LeadView::Unknown(w) => Err(Refusal {
            code: "UNKNOWN_NAME", message: "Unknown input "@ + w + "; calls are not supported here."@, span: start }),
        LeadView::Literal(v) => add_node(ins, st1, NodeShape::Literal(v), start),
        LeadView::Input(i) => add_node(ins, st1, NodeShape::Input(i), start),
        LeadView::Open => match parse_expression(ts, ins, st1, nesting, 0) {
            Err(f) => Err(f),
            Ok((st2, id)) => match expect_symbol(ts, st2, Sym::RParen, ")"@) {
                Err(f) => Err(f),
                Ok(st3) => Ok((st3, id)),
            },
        },
        LeadView::Negate => match parse_expression(ts, ins, st1, nesting, 7) {
            Err(f) => Err(f),
            Ok((st2, c)) => add_node(ins, st2, NodeShape::Unary(Op::Neg, c), span_to(start, consumed_end(ts, st2))),
        },
        LeadView::Invert => match parse_expression(ts, ins, st1, nesting, 7) {
            Err(f) => Err(f),
            Ok((st2, c)) => add_node(ins, st2, NodeShape::Unary(Op::Not, c), span_to(start, consumed_end(ts, st2))),
        },
        LeadView::Conditional => match parse_expression(ts, ins, st1, nesting, 0) {
            Err(f) => Err(f),
            Ok((st2, c)) => match expect_word(ts, st2, "then"@) {
                Err(f) => Err(f),
                Ok(st3) => match parse_expression(ts, ins, st3, nesting, 0) {
                    Err(f) => Err(f),
                    Ok((st4, y)) => match expect_word(ts, st4, "else"@) {
                        Err(f) => Err(f),
                        Ok(st5) => match parse_expression(ts, ins, st5, nesting, 0) {
                            Err(f) => Err(f),
                            Ok((st6, e)) => add_node(ins, st6, NodeShape::If(c, y, e), span_to(start, consumed_end(ts, st6))),
                        },
                    },
                },
            },
        },
    }
}

/// The binary operators of precedence at least `min` after the operand `left`, each with
/// its right operand, which binds more tightly: operators of equal precedence group to
/// the left.
pub open spec fn parse_operators(ts: Seq<TokenView>, ins: Seq<InputView>, st: ParseState, nesting: nat, min: nat, left: nat)
    -> Result<(ParseState, nat), Refusal>
    decreases room(nesting), 1nat, ts.len() - st.index,
{
    match binop_of(ts[st.index as int]) {
        None => Ok((st, left)),
        Some((p, op)) => if p < min {
            Ok((st, left))
        } else {
            match parse_expression(ts, ins, ParseState { index: st.index + 1, nodes: st.nodes }, nesting, p + 1) {
                Err(f) => Err(f),
                Ok((st2, right)) => {
                    let l = st2.nodes[left as int].span;
                    let span = Span { start: l.start, end: st2.nodes[right as int].span.end, line: l.line, column: l.column };
                    match add_node(ins, st2, NodeShape::Binary(op, left, right), span) {
                        Err(f) => Err(f),
                        // The cursor always moves forward within the tokens; the test keeps the
                        // definition total.
                        Ok((st3, id)) => if st.index < st3.index < ts.len() {
                            parse_operators(ts, ins, st3, nesting, min, id)
                        } else {
                            Ok((st3, id))
                        },
                    }
                }
            }
        },
    }
}

/// The arena and root of a whole token list: one expression, then the end.
pub open spec fn parse_tokens(ts: Seq<TokenView>, ins: Seq<InputView>) -> Result<(Seq<NodeView>, nat), Refusal> {
    match parse_expression(ts, ins, ParseState { index: 0, nodes: Seq::empty() }, 0, 0) {
        Err(f) => Err(f),
        Ok((st, root)) => if ts[st.index as int].kind is End {
            Ok((st.nodes, root))
        } else {
            Err(parse_refusal("Unexpected token after expression."@, ts[st.index as int].span))
        },
    }
}

/// A token that spells `or`: the word or the symbol `||`.
pub open spec fn spells_or(t: TokenView) -> bool {
    t.kind == Lexeme::Word("or"@) || t.kind == Lexeme::Symbol(Sym::OrOr)
}

/// A token that spells `and`: the word or the symbol `&&`.
pub open spec fn spells_and(t: TokenView) -> bool {
    t.kind == Lexeme::Word("and"@) || t.kind == Lexeme::Symbol(Sym::AndAnd)
}

/// The boolean literal a token spells, if it spells one.
pub open spec fn bool_token(t: TokenView) -> Option<bool> {
    match t.kind { Lexeme::Literal(ValueModel::Bool(b)) => Some(b), _ => None }
}

/// Law: `and` binds more tightly than `or`. Three boolean literals joined as `a or b and c`
/// parse as `a or (b and c)`: the root is the `or` of `a` and of the `and` of `b` and `c`.
pub proof fn lemma_and_binds_tighter_than_or(ts: Seq<TokenView>, ins: Seq<InputView>)
    requires
        ts.len() == 6, ts[5].kind is End,
        bool_token(ts[0]) is Some, spells_or(ts[1]), bool_token(ts[2]) is Some, spells_and(ts[3]), bool_token(ts[4]) is Some,
    ensures
        parse_tokens(ts, ins) matches Ok((nodes, root)) && root == 4 && nodes.len() == 5
            && nodes[4].shape == NodeShape::Binary(Op::Or, 0, 3)
            && nodes[3].shape == NodeShape::Binary(Op::And, 1, 2)
            && nodes[0].shape == NodeShape::Literal(ValueModel::Bool(bool_token(ts[0])->Some_0))
            && nodes[1].shape == NodeShape::Literal(ValueModel::Bool(bool_token(ts[2])->Some_0))
            && nodes[2].shape == NodeShape::Literal(ValueModel::Bool(bool_token(ts[4])->Some_0)),
{
    reveal_strlit("or");
    reveal_strlit("and");
    assert("and"@ != "or"@) by { assert("and"@.len() != "or"@.len()); }
    let (p1, o1) = binop_of(ts[1])->Some_0;
    let (p2, o2) = binop_of(ts[3])->Some_0;
    assert(o1 == Op::Or && o2 == Op::And);
    assert(literal_token(ts[0]) == Some(ValueModel::Bool(bool_token(ts[0])->Some_0)));
    assert(literal_token(ts[2]) == Some(ValueModel::Bool(bool_token(ts[2])->Some_0)));
    assert(literal_token(ts[4]) == Some(ValueModel::Bool(bool_token(ts[4])->Some_0)));
    lemma_tighter_groups_right(ts, ins, o1, p1, o2, p2);
}

/// The literal a token spells, if it spells one.
pub open spec fn literal_token(t: TokenView) -> Option<ValueModel> {
    match t.kind { Lexeme::Literal(v) => Some(v), _ => None }
}

/// Five nodes whose root applies `o1` to the first and to the application of `o2` to the
/// second and third: `a o1 (b o2 c)`.
pub open spec fn right_grouped(r: Result<(Seq<NodeView>, nat), Refusal>, o1: Op, o2: Op) -> bool {
    &&& r is Ok
    &&& r->Ok_0.1 == 4 && r->Ok_0.0.len() == 5
    &&& r->Ok_0.0[4].shape == NodeShape::Binary(o1, 0, 3)
    &&& r->Ok_0.0[3].shape == NodeShape::Binary(o2, 1, 2)
}

/// Three literals joined by two binary operators, the second of which binds more tightly,
/// group to the right: `a o1 b o2 c` parses as `a o1 (b o2 c)` where the operand types fit.
proof fn lemma_tighter_groups_right(ts: Seq<TokenView>, ins: Seq<InputView>, o1: Op, p1: nat, o2: Op, p2: nat)
    requires
        ts.len() == 6, ts[5].kind is End,
        literal_token(ts[0]) is Some, literal_token(ts[2]) is Some, literal_token(ts[4]) is Some,
        binop_of(ts[1]) == Some((p1, o1)), binop_of(ts[3]) == Some((p2, o2)), 1 <= p1 < p2,
        binary_signature(o2, model_type(literal_token(ts[2])->Some_0)).0 == model_type(literal_token(ts[2])->Some_0),
        model_type(literal_token(ts[4])->Some_0) == model_type(literal_token(ts[2])->Some_0),
        binary_signature(o1, model_type(literal_token(ts[0])->Some_0)).0 == model_type(literal_token(ts[0])->Some_0),
        binary_signature(o2, model_type(literal_token(ts[2])->Some_0)).1 == model_type(literal_token(ts[0])->Some_0),
    ensures
        parse_tokens(ts, ins) matches Ok((nodes, root)) && root == 4 && nodes.len() == 5
            && nodes[4].shape == NodeShape::Binary(o1, 0, 3)
            && nodes[3].shape == NodeShape::Binary(o2, 1, 2)
            && nodes[0].shape == NodeShape::Literal(literal_token(ts[0])->Some_0)
            && nodes[1].shape == NodeShape::Literal(literal_token(ts[2])->Some_0)
            && nodes[2].shape == NodeShape::Literal(literal_token(ts[4])->Some_0),
{
    let a = literal_token(ts[0])->Some_0;
    let b = literal_token(ts[2])->Some_0;
    let c = literal_token(ts[4])->Some_0;
    let (ta, tb) = (model_type(a), model_type(b));
    let t3 = binary_signature(o2, tb).1;
    let t4 = binary_signature(o1, ta).1;
    assert(binop_of(ts[5]) is None);
    let n0 = NodeView { shape: NodeShape::Literal(a), span: ts[0].span, ty: ta, depth: 1 };
    let n1 = NodeView { shape: NodeShape::Literal(b), span: ts[2].span, ty: tb, depth: 1 };
    let n2 = NodeView { shape: NodeShape::Literal(c), span: ts[4].span, ty: tb, depth: 1 };
    let span2 = Span { start: ts[2].span.start, end: ts[4].span.end, line: ts[2].span.line, column: ts[2].span.column };
    let n3 = NodeView { shape: NodeShape::Binary(o2, 1, 2), span: span2, ty: t3, depth: 2 };
    let span1 = Span { start: ts[0].span.start, end: ts[4].span.end, line: ts[0].span.line, column: ts[0].span.column };
    let n4 = NodeView { shape: NodeShape::Binary(o1, 0, 3), span: span1, ty: t4, depth: 3 };
    let s0 = ParseState { index: 0, nodes: Seq::empty() };
    let s1 = ParseState { index: 1, nodes: seq![n0] };
    let s2 = ParseState { index: 2, nodes: seq![n0] };
    let s3 = ParseState { index: 3, nodes: seq![n0, n1] };
    let s4 = ParseState { index: 4, nodes: seq![n0, n1] };
    let s5 = ParseState { index: 5, nodes: seq![n0, n1, n2] };
    let s5b = ParseState { index: 5, nodes: seq![n0, n1, n2, n3] };
    let s5c = ParseState { index: 5, nodes: seq![n0, n1, n2, n3, n4] };
    assert(add_node(ins, ParseState { index: 5, nodes: seq![n0, n1] }, NodeShape::Literal(c), ts[4].span)
        == Ok::<(ParseState, nat), Refusal>((s5, 2nat))) by {
        assert(seq![n0, n1].push(n2) =~= s5.nodes);
    }
    assert(parse_operand(ts, ins, s4, 3) == Ok::<(ParseState, nat), Refusal>((s5, 2nat)));
    assert(parse_operators(ts, ins, s5, 3, p2 + 1, 2) == Ok::<(ParseState, nat), Refusal>((s5, 2nat)));
    assert(parse_operation(ts, ins, s4, 3, p2 + 1) == Ok::<(ParseState, nat), Refusal>((s5, 2nat)));
    assert(parse_expression(ts, ins, s4, 2, p2 + 1) == Ok::<(ParseState, nat), Refusal>((s5, 2nat)));
    assert(add_node(ins, s5, NodeShape::Binary(o2, 1, 2), span2) == Ok::<(ParseState, nat), Refusal>((s5b, 3nat))) by {
        assert(s5.nodes.push(n3) =~= s5b.nodes);
    }
    assert(parse_operators(ts, ins, s5b, 2, p1 + 1, 3) == Ok::<(ParseState, nat), Refusal>((s5b, 3nat)));
    assert(parse_operators(ts, ins, s3, 2, p1 + 1, 1) == Ok::<(ParseState, nat), Refusal>((s5b, 3nat)));
    assert(add_node(ins, ParseState { index: 3, nodes: seq![n0] }, NodeShape::Literal(b), ts[2].span)
        == Ok::<(ParseState, nat), Refusal>((s3, 1nat))) by {
        assert(seq![n0].push(n1) =~= s3.nodes);
    }
    assert(parse_operand(ts, ins, s2, 2) == Ok::<(ParseState, nat), Refusal>((s3, 1nat)));
    assert(parse_operation(ts, ins, s2, 2, p1 + 1) == Ok::<(ParseState, nat), Refusal>((s5b, 3nat)));
    assert(parse_expression(ts, ins, s2, 1, p1 + 1) == Ok::<(ParseState, nat), Refusal>((s5b, 3nat)));
    assert(add_node(ins, s5b, NodeShape::Binary(o1, 0, 3), span1) == Ok::<(ParseState, nat), Refusal>((s5c, 4nat))) by {
        assert(s5b.nodes.push(n4) =~= s5c.nodes);
    }
    assert(parse_operators(ts, ins, s5c, 1, 0, 4) == Ok::<(ParseState, nat), Refusal>((s5c, 4nat)));
    assert(parse_operators(ts, ins, s1, 1, 0, 0) == Ok::<(ParseState, nat), Refusal>((s5c, 4nat)));
    assert(add_node(ins, ParseState { index: 1, nodes: Seq::<NodeView>::empty() }, NodeShape::Literal(a), ts[0].span)
        == Ok::<(ParseState, nat), Refusal>((s1, 0nat))) by {
        assert(Seq::<NodeView>::empty().push(n0) =~= s1.nodes);
    }
    assert(parse_operand(ts, ins, s0, 1) == Ok::<(ParseState, nat), Refusal>((s1, 0nat)));
    assert(parse_operation(ts, ins, s0, 1, 0) == Ok::<(ParseState, nat), Refusal>((s5c, 4nat)));
    assert(parse_expression(ts, ins, s0, 0, 0) == Ok::<(ParseState, nat), Refusal>((s5c, 4nat)));
}

/// Five nodes whose root applies `o2` to the application of `o1` to the first and second,
/// and to the fourth: `(a o1 b) o2 c`.
pub open spec fn left_grouped(r: Result<(Seq<NodeView>, nat), Refusal>, o1: Op, o2: Op) -> bool {
    &&& r is Ok
    &&& r->Ok_0.1 == 4 && r->Ok_0.0.len() == 5
    &&& r->Ok_0.0[4].shape == NodeShape::Binary(o2, 2, 3)
    &&& r->Ok_0.0[2].shape == NodeShape::Binary(o1, 0, 1)
}

/// Three literals joined by two binary operators of equal precedence group to the left:
/// `a o1 b o2 c` parses as `(a o1 b) o2 c` where the operand types fit.
proof fn lemma_equal_groups_left(ts: Seq<TokenView>, ins: Seq<InputView>, o1: Op, p1: nat, o2: Op, p2: nat)
    requires
        ts.len() == 6, ts[5].kind is End,
        literal_token(ts[0]) is Some, literal_token(ts[2]) is Some, literal_token(ts[4]) is Some,
        binop_of(ts[1]) == Some((p1, o1)), binop_of(ts[3]) == Some((p2, o2)), 1 <= p1, p1 == p2,
        binary_signature(o1, model_type(literal_token(ts[0])->Some_0)).0 == model_type(literal_token(ts[0])->Some_0),
        model_type(literal_token(ts[2])->Some_0) == model_type(literal_token(ts[0])->Some_0),
        binary_signature(o2, binary_signature(o1, model_type(literal_token(ts[0])->Some_0)).1).0
            == binary_signature(o1, model_type(literal_token(ts[0])->Some_0)).1,
        model_type(literal_token(ts[4])->Some_0) == binary_signature(o1, model_type(literal_token(ts[0])->Some_0)).1,
    ensures left_grouped(parse_tokens(ts, ins), o1, o2),
{
    let a = literal_token(ts[0])->Some_0;
    let b = literal_token(ts[2])->Some_0;
    let c = literal_token(ts[4])->Some_0;
    let ta = model_type(a);
    let t2 = binary_signature(o1, ta).1;
    let t4 = binary_signature(o2, t2).1;
    assert(binop_of(ts[5]) is None);
    let n0 = NodeView { shape: NodeShape::Literal(a), span: ts[0].span, ty: ta, depth: 1 };
    let n1 = NodeView { shape: NodeShape::Literal(b), span: ts[2].span, ty: ta, depth: 1 };
    let span2 = Span { start: ts[0].span.start, end: ts[2].span.end, line: ts[0].span.line, column: ts[0].span.column };
    let n2 = NodeView { shape: NodeShape::Binary(o1, 0, 1), span: span2, ty: t2, depth: 2 };
    let n3 = NodeView { shape: NodeShape::Literal(c), span: ts[4].span, ty: t2, depth: 1 };
    let span4 = Span { start: ts[0].span.start, end: ts[4].span.end, line: ts[0].span.line, column: ts[0].span.column };
    let n4 = NodeView { shape: NodeShape::Binary(o2, 2, 3), span: span4, ty: t4, depth: 3 };
    let s0 = ParseState { index: 0, nodes: Seq::empty() };
    let s1 = ParseState { index: 1, nodes: seq![n0] };
    let s2 = ParseState { index: 2, nodes: seq![n0] };
    let s3 = ParseState { index: 3, nodes: seq![n0, n1] };
    let s3b = ParseState { index: 3, nodes: seq![n0, n1, n2] };
    let s4 = ParseState { index: 4, nodes: seq![n0, n1, n2] };
    let s5 = ParseState { index: 5, nodes: seq![n0, n1, n2, n3] };
    let s5b = ParseState { index: 5, nodes: seq![n0, n1, n2, n3, n4] };
    // `b`, stopping before the operator of equal precedence.
    assert(add_node(ins, ParseState { index: 3, nodes: seq![n0] }, NodeShape::Literal(b), ts[2].span)
        == Ok::<(ParseState, nat), Refusal>((s3, 1nat))) by {
        assert(seq![n0].push(n1) =~= s3.nodes);
    }
    assert(parse_operand(ts, ins, s2, 2) == Ok::<(ParseState, nat), Refusal>((s3, 1nat)));
    assert(parse_operators(ts, ins, s3, 2, p1 + 1, 1) == Ok::<(ParseState, nat), Refusal>((s3, 1nat)));
    assert(parse_operation(ts, ins, s2, 2, p1 + 1) == Ok::<(ParseState, nat), Refusal>((s3, 1nat)));
    assert(parse_expression(ts, ins, s2, 1, p1 + 1) == Ok::<(ParseState, nat), Refusal>((s3, 1nat)));
    assert(add_node(ins, s3, NodeShape::Binary(o1, 0, 1), span2) == Ok::<(ParseState, nat), Refusal>((s3b, 2nat))) by {
        assert(s3.nodes.push(n2) =~= s3b.nodes);
    }
    // `c`.
    assert(add_node(ins, ParseState { index: 5, nodes: seq![n0, n1, n2] }, NodeShape::Literal(c), ts[4].span)
        == Ok::<(ParseState, nat), Refusal>((s5, 3nat))) by {
        assert(seq![n0, n1, n2].push(n3) =~= s5.nodes);
    }
    assert(parse_operand(ts, ins, s4, 2) == Ok::<(ParseState, nat), Refusal>((s5, 3nat)));
    assert(parse_operators(ts, ins, s5, 2, p2 + 1, 3) == Ok::<(ParseState, nat), Refusal>((s5, 3nat)));
    assert(parse_operation(ts, ins, s4, 2, p2 + 1) == Ok::<(ParseState, nat), Refusal>((s5, 3nat)));
    assert(parse_expression(ts, ins, s4, 1, p2 + 1) == Ok::<(ParseState, nat), Refusal>((s5, 3nat)));
    assert(add_node(ins, s5, NodeShape::Binary(o2, 2, 3), span4) == Ok::<(ParseState, nat), Refusal>((s5b, 4nat))) by {
        assert(s5.nodes.push(n4) =~= s5b.nodes);
    }
    assert(parse_operators(ts, ins, s5b, 1, 0, 4) == Ok::<(ParseState, nat), Refusal>((s5b, 4nat)));
    assert(parse_operators(ts, ins, s3b, 1, 0, 2) == Ok::<(ParseState, nat), Refusal>((s5b, 4nat)));
    assert(parse_operators(ts, ins, s1, 1, 0, 0) == Ok::<(ParseState, nat), Refusal>((s5b, 4nat)));
    assert(add_node(ins, ParseState { index: 1, nodes: Seq::<NodeView>::empty() }, NodeShape::Literal(a), ts[0].span)
        == Ok::<(ParseState, nat), Refusal>((s1, 0nat))) by {
        assert(Seq::<NodeView>::empty().push(n0) =~= s1.nodes);
    }
    assert(parse_operand(ts, ins, s0, 1) == Ok::<(ParseState, nat), Refusal>((s1, 0nat)));
    assert(parse_operation(ts, ins, s0, 1, 0) == Ok::<(ParseState, nat), Refusal>((s5b, 4nat)));
    assert(parse_expression(ts, ins, s0, 0, 0) == Ok::<(ParseState, nat), Refusal>((s5b, 4nat)));
}

/// Law: `+` and `-` have the same precedence and group to the left. Three integer literals
/// joined by two of them, as in `a - b + c`, parse as `(a - b) + c`.
pub proof fn lemma_sums_group_left(ts: Seq<TokenView>, ins: Seq<InputView>)
    requires
        ts.len() == 6, ts[5].kind is End,
        ts[1].kind == Lexeme::Symbol(Sym::Plus) || ts[1].kind == Lexeme::Symbol(Sym::Minus),
        ts[3].kind == Lexeme::Symbol(Sym::Plus) || ts[3].kind == Lexeme::Symbol(Sym::Minus),
        literal_token(ts[0]) matches Some(ValueModel::Int(_)), literal_token(ts[2]) matches Some(ValueModel::Int(_)),
        literal_token(ts[4]) matches Some(ValueModel::Int(_)),
    ensures
        exists|o1: Op, o2: Op| #[trigger] left_grouped(parse_tokens(ts, ins), o1, o2)
            && (o1 == (if ts[1].kind == Lexeme::Symbol(Sym::Plus) { Op::Add } else { Op::Sub }))
            && (o2 == (if ts[3].kind == Lexeme::Symbol(Sym::Plus) { Op::Add } else { Op::Sub })),
{
    let (p1, o1) = binop_of(ts[1])->Some_0;
    let (p2, o2) = binop_of(ts[3])->Some_0;
    lemma_equal_groups_left(ts, ins, o1, p1, o2, p2);
}

/// Law: `or` groups to the left. Three boolean literals joined as `a or b or c` parse as
/// `(a or b) or c`, whichever spelling each `or` has.
pub proof fn lemma_disjunctions_group_left(ts: Seq<TokenView>, ins: Seq<InputView>)
    requires
        ts.len() == 6, ts[5].kind is End, spells_or(ts[1]), spells_or(ts[3]),
        literal_token(ts[0]) matches Some(ValueModel::Bool(_)), literal_token(ts[2]) matches Some(ValueModel::Bool(_)),
        literal_token(ts[4]) matches Some(ValueModel::Bool(_)),
    ensures left_grouped(parse_tokens(ts, ins), Op::Or, Op::Or),
{
    reveal_strlit("or");
    let (p1, o1) = binop_of(ts[1])->Some_0;
    let (p2, o2) = binop_of(ts[3])->Some_0;
    lemma_equal_groups_left(ts, ins, o1, p1, o2, p2);
}

/// Law: `*` binds more tightly than `+`. Three integer literals joined as `a + b * c` parse
/// as `a + (b * c)`.
pub proof fn lemma_product_binds_tighter_than_sum(ts: Seq<TokenView>, ins: Seq<InputView>)
    requires
        ts.len() == 6, ts[5].kind is End, ts[1].kind == Lexeme::Symbol(Sym::Plus), ts[3].kind == Lexeme::Symbol(Sym::Star),
        literal_token(ts[0]) matches Some(ValueModel::Int(_)), literal_token(ts[2]) matches Some(ValueModel::Int(_)),
        literal_token(ts[4]) matches Some(ValueModel::Int(_)),
    ensures right_grouped(parse_tokens(ts, ins), Op::Add, Op::Mul),
{
    lemma_tighter_groups_right(ts, ins, Op::Add, 5, Op::Mul, 6);
}

/// Law: `+` and `-` bind more tightly than the comparisons. Three integer literals joined as
/// `a < b + c` parse as `a < (b + c)`, and likewise for `<=`, `>`, `>=` and `-`.
pub proof fn lemma_sum_binds_tighter_than_comparison(ts: Seq<TokenView>, ins: Seq<InputView>)
    requires
        ts.len() == 6, ts[5].kind is End,
        ts[1].kind == Lexeme::Symbol(Sym::Lt) || ts[1].kind == Lexeme::Symbol(Sym::Le)
            || ts[1].kind == Lexeme::Symbol(Sym::Gt) || ts[1].kind == Lexeme::Symbol(Sym::Ge),
        ts[3].kind == Lexeme::Symbol(Sym::Plus) || ts[3].kind == Lexeme::Symbol(Sym::Minus),
        literal_token(ts[0]) matches Some(ValueModel::Int(_)), literal_token(ts[2]) matches Some(ValueModel::Int(_)),
        literal_token(ts[4]) matches Some(ValueModel::Int(_)),
    ensures
        exists|o1: Op, o2: Op| #[trigger] right_grouped(parse_tokens(ts, ins), o1, o2)
            && (o1 == Op::Lt || o1 == Op::Le || o1 == Op::Gt || o1 == Op::Ge) && (o2 == Op::Add || o2 == Op::Sub),
{
    let (p1, o1) = binop_of(ts[1])->Some_0;
    let (p2, o2) = binop_of(ts[3])->Some_0;
    lemma_tighter_groups_right(ts, ins, o1, p1, o2, p2);
    assert(right_grouped(parse_tokens(ts, ins), o1, o2));
}

/// Law: the comparisons bind more tightly than `==` and `!=`. Literals joined as
/// `a == b < c`, where `a` is a boolean and `b` and `c` are integers, parse as
/// `a == (b < c)`, and likewise for the other comparisons and `!=`.
pub proof fn lemma_comparison_binds_tighter_than_equality(ts: Seq<TokenView>, ins: Seq<InputView>)
    requires
        ts.len() == 6, ts[5].kind is End,
        ts[1].kind == Lexeme::Symbol(Sym::EqEq) || ts[1].kind == Lexeme::Symbol(Sym::Ne),
        ts[3].kind == Lexeme::Symbol(Sym::Lt) || ts[3].kind == Lexeme::Symbol(Sym::Le)
            || ts[3].kind == Lexeme::Symbol(Sym::Gt) || ts[3].kind == Lexeme::Symbol(Sym::Ge),
        literal_token(ts[0]) matches Some(ValueModel::Bool(_)), literal_token(ts[2]) matches Some(ValueModel::Int(_)),
        literal_token(ts[4]) matches Some(ValueModel::Int(_)),
    ensures
        exists|o1: Op, o2: Op| #[trigger] right_grouped(parse_tokens(ts, ins), o1, o2)
            && (o1 == Op::Eq || o1 == Op::Ne) && (o2 == Op::Lt || o2 == Op::Le || o2 == Op::Gt || o2 == Op::Ge),
{
    let (p1, o1) = binop_of(ts[1])->Some_0;
    let (p2, o2) = binop_of(ts[3])->Some_0;
    lemma_tighter_groups_right(ts, ins, o1, p1, o2, p2);
    assert(right_grouped(parse_tokens(ts, ins), o1, o2));
}

/// Law: `==` and `!=` bind more tightly than `and`. Three boolean literals joined as
/// `a and b == c` parse as `a and (b == c)`, and likewise with `&&` and `!=`.
pub proof fn lemma_equality_binds_tighter_than_and(ts: Seq<TokenView>, ins: Seq<InputView>)
    requires
        ts.len() == 6, ts[5].kind is End, spells_and(ts[1]),
        ts[3].kind == Lexeme::Symbol(Sym::EqEq) || ts[3].kind == Lexeme::Symbol(Sym::Ne),
        literal_token(ts[0]) matches Some(ValueModel::Bool(_)), literal_token(ts[2]) matches Some(ValueModel::Bool(_)),
        literal_token(ts[4]) matches Some(ValueModel::Bool(_)),
    ensures
        exists|o2: Op| #[trigger] right_grouped(parse_tokens(ts, ins), Op::And, o2) && (o2 == Op::Eq || o2 == Op::Ne),
{
    reveal_strlit("or");
    reveal_strlit("and");
    assert("and"@ != "or"@) by { assert("and"@.len() != "or"@.len()); }
    let (p1, o1) = binop_of(ts[1])->Some_0;
    let (p2, o2) = binop_of(ts[3])->Some_0;
    assert(o1 == Op::And);
    lemma_tighter_groups_right(ts, ins, o1, p1, o2, p2);
    assert(right_grouped(parse_tokens(ts, ins), Op::And, o2));
}

/// What compiling `source` against a valid schema gives: the arena and its root, or the
/// refusal.
pub open spec fn compiled(source: Seq<char>, ins: Seq<InputView>) -> Result<(Seq<NodeView>, nat), Refusal> {
    if utf16_len(source) > MAX_SOURCE_UNITS {
        Err(parse_refusal("Source exceeds the UTF-16 code-unit limit."@, spec_boundary_span()))
    } else {
        match lex(source) {
            Err(f) => Err(f),
            Ok(ts) => parse_tokens(ts, ins),
        }
    }
}

struct Parser {
    tokens: Vec<Token>,
    index: usize,
    nodes: Vec<Node>,
    nesting: usize,
    inputs: Vec<InputSpec>,
    names: Vec<Vec<char>>,
    units: Ghost<nat>,
}

/// A node kind whose operator suits its arity.
pub open spec fn kind_ops_ok(kind: NodeKind) -> bool {
    match kind {
        NodeKind::Unary(op, _) => op == Op::Neg || op == Op::Not,
        NodeKind::Binary(op, _, _) => op != Op::Neg && op != Op::Not,
        _ => true,
    }
}

impl Parser {
    spec fn inv(&self) -> bool {
        &&& tokens_ok(self.tokens@, self.units@)
        &&& self.index < self.tokens@.len()
        &&& arena_ok(self.nodes@, self.inputs@, self.units@)
        &&& self.names@.len() == self.inputs@.len()
        &&& forall|i: int| 0 <= i < self.names@.len() ==> (#[trigger] self.names@[i])@ == self.inputs@[i].name@
        &&& self.nodes@.len() <= self.index
    }

    /// Same tokens and inputs; the arena only grows; the cursor only advances.
    spec fn extends(&self, old: &Parser) -> bool {
        &&& self.tokens@ == old.tokens@
        &&& self.inputs@ == old.inputs@
        &&& self.names@ == old.names@
        &&& self.units == old.units
        &&& old.nodes@.len() <= self.nodes@.len()
        &&& forall|i: int| 0 <= i < old.nodes@.len() ==> self.nodes@[i] == old.nodes@[i]
        &&& self.index >= old.index
    }

    spec fn toks(&self) -> Seq<TokenView> { token_views(self.tokens@) }

    spec fn ins(&self) -> Seq<InputView> { input_views(self.inputs@) }

    spec fn state(&self) -> ParseState { ParseState { index: self.index as nat, nodes: node_views(self.nodes@) } }

    fn peek_span(&self) -> (s: Span)
        requires self.inv(),
        ensures s == self.tokens@[self.index as int].span, s == self.toks()[self.index as int].span,
    {
        self.tokens[self.index].span
    }

    fn at_end(&self) -> (r: bool)
        requires self.inv(),
        ensures r == (self.tokens@[self.index as int].kind is End), r == (self.toks()[self.index as int].kind is End),
    {
        match self.tokens[self.index].kind { TokenKind::End => true, _ => false }
    }

    /// Moves past the current token unless it is the end.
    fn advance(&mut self)
        requires old(self).inv(),
        ensures
            final(self).inv(), final(self).extends(old(self)),
            final(self).nodes@ == old(self).nodes@, final(self).nesting == old(self).nesting,
            !(old(self).tokens@[old(self).index as int].kind is End) ==> final(self).index == old(self).index + 1,
    {
        if !self.at_end() {
            proof {
                if self.index + 1 >= self.tokens@.len() {
                    assert(self.index == self.tokens@.len() - 1);
                }
            }
            self.index = self.index + 1;
        }
        assert(self.nodes@.subrange(0, self.nodes@.len() as int) =~= self.nodes@);
    }

    fn end(&self) -> (e: usize)
        requires self.inv(),
        ensures e <= self.units@, e == consumed_end(self.toks(), self.state()),
    {
        let i = if self.index == 0 { 0 } else { self.index - 1 };
        assert(token_ok(self.tokens@[i as int], self.units@));
        self.tokens[i].span.end
    }

    fn is_symbol(&self, sym: Sym) -> (r: bool)
        requires self.inv(),
        ensures
            r ==> !(self.tokens@[self.index as int].kind is End),
            r == (self.toks()[self.index as int].kind == Lexeme::Symbol(sym)),
    {
        match &self.tokens[self.index].kind { TokenKind::Symbol(s) => *s == sym, _ => false }
    }

    fn is_word(&self, w: &str) -> (r: bool)
        requires self.inv(),
        ensures
            r ==> !(self.tokens@[self.index as int].kind is End),
            r == (self.toks()[self.index as int].kind == Lexeme::Word(w@)),
    {
        match &self.tokens[self.index].kind {
            TokenKind::Word(s) => { let cs = chars_of(w); chars_equal(s.as_slice(), cs.as_slice()) }
            _ => false,
        }
    }

    fn expected(&self, text: &str) -> (d: Diagnostic)
        requires self.inv(),
        ensures d.reports(parse_refusal("Expected "@ + text@ + "."@, self.toks()[self.index as int].span)),
    {
        let mut m = String::from_str("Expected ");
        push_str(&mut m, text);
        push_str(&mut m, ".");
        Diagnostic::new("PARSE_ERROR", m, self.peek_span())
    }

    #[verifier::rlimit(40)]
    fn node(&mut self, kind: NodeKind, span: Span) -> (r: Result<usize, Diagnostic>)
        requires
            old(self).inv(),
            span.end <= old(self).units@,
            old(self).nodes@.len() < old(self).index,
            kind_refs_ok(kind, old(self).nodes@.len(), old(self).inputs@.len()),
            kind_ops_ok(kind),
        ensures
            final(self).inv(), final(self).extends(old(self)),
            final(self).index == old(self).index, final(self).nesting == old(self).nesting,
            r matches Ok(id) ==> id == old(self).nodes@.len() && final(self).nodes@.len() == id + 1,
            r is Err ==> final(self).nodes@ == old(self).nodes@,
            r matches Err(d) ==> d.code == "TYPE_MISMATCH" || d.code == "PARSE_ERROR",
            (match add_node(old(self).ins(), old(self).state(), shape_of(kind), span) {
                Ok((st, id)) => r matches Ok(i) && i == id && final(self).state() == st,
                Err(f) => r matches Err(d) && d.reports(f),
            }),
    {
        let n = self.nodes.len();
        let ghost views = node_views(self.nodes@);
        assert(self.nodes@.subrange(0, n as int) =~= self.nodes@);
        let (ty, depth): (Type, usize) = match &kind {
            NodeKind::Input(index) => (self.inputs[*index].input_type.base_type(), 1),
            NodeKind::Literal(v) => (v.value_type(), 1),
            NodeKind::Unary(op, child) => {
                let target = if *op == Op::Neg { Type::Int } else { Type::Bool };
                assert(views[*child as int] == node_view(self.nodes@[*child as int]));
                if self.nodes[*child].ty != target {
                    return Err(Diagnostic::new("TYPE_MISMATCH", String::from_str("Expression operand types are incompatible."), span));
                }
                assert(node_ok(self.nodes@, self.inputs@, *child as int, self.units@));
                (target, self.nodes[*child].depth + 1)
            }
            NodeKind::Binary(op, left, right) => {
                let l = &self.nodes[*left];
                let r = &self.nodes[*right];
                assert(views[*left as int] == node_view(*l));
                assert(views[*right as int] == node_view(*r));
                let (want, result): (Type, Type) = match op {
                    Op::Add | Op::Sub | Op::Mul => (Type::Int, Type::Int),
                    Op::And | Op::Or => (Type::Bool, Type::Bool),
                    Op::Eq | Op::Ne => (l.ty, Type::Bool),
                    _ => (Type::Int, Type::Bool),
                };
                if l.ty != want {
                    return Err(Diagnostic::new("TYPE_MISMATCH", String::from_str("Expression operand types are incompatible."), l.span));
                }
                if r.ty != want {
                    return Err(Diagnostic::new("TYPE_MISMATCH", String::from_str("Expression operand types are incompatible."), r.span));
                }
                assert(node_ok(self.nodes@, self.inputs@, *left as int, self.units@));
                assert(node_ok(self.nodes@, self.inputs@, *right as int, self.units@));
                let d = if l.depth >= r.depth { l.depth } else { r.depth };
                (result, d + 1)
            }
            NodeKind::If(cond, yes, no) => {
                let c = &self.nodes[*cond];
                let y = &self.nodes[*yes];
                let e = &self.nodes[*no];
                assert(views[*cond as int] == node_view(*c));
                assert(views[*yes as int] == node_view(*y));
                assert(views[*no as int] == node_view(*e));
                if c.ty != Type::Bool {
                    return Err(Diagnostic::new("TYPE_MISMATCH", String::from_str("Expression operand types are incompatible."), c.span));
                }
                if y.ty != e.ty {
                    return Err(Diagnostic::new("TYPE_MISMATCH", String::from_str("Expression operand types are incompatible."), span));
                }
                assert(node_ok(self.nodes@, self.inputs@, *cond as int, self.units@));
                assert(node_ok(self.nodes@, self.inputs@, *yes as int, self.units@));
                assert(node_ok(self.nodes@, self.inputs@, *no as int, self.units@));
                let d1 = if c.depth >= y.depth { c.depth } else { y.depth };
                let d2 = if d1 >= e.depth { d1 } else { e.depth };
                (y.ty, d2 + 1)
            }
        };
        assert(typing(self.ins(), views, shape_of(kind), span) == Ok::<(Type, nat), Refusal>((ty, depth as nat)));
        if depth > MAX_DEPTH {
            return Err(Diagnostic::new("PARSE_ERROR", String::from_str("Expression tree depth exceeds 128."), span));
        }
        let ghost old_nodes = self.nodes@;
        let node = Node { kind, span, ty, depth };
        self.nodes.push(node);
        proof {
            assert forall|i: int| 0 <= i < self.nodes@.len() implies #[trigger] node_ok(self.nodes@, self.inputs@, i, self.units@) by {
                if i < n {
                    assert(node_ok(old_nodes, self.inputs@, i, self.units@));
                    assert(self.nodes@[i] == old_nodes[i]);
                }
            }
            assert(self.nodes@.subrange(0, old_nodes.len() as int) =~= old_nodes);
            assert(node_views(self.nodes@) =~= views.push(node_view(node)));
        }
        Ok(n)
    }
}

/// Codes with which parsing and type checking refuse a source.
pub open spec fn parse_code(c: &'static str) -> bool {
    c == "PARSE_ERROR" || c == "TYPE_MISMATCH" || c == "UNKNOWN_NAME"
}

/// What the token at the head of an operand is.
enum Lead { Literal(Value), Open, Negate, Invert, Conditional, Input(usize), Unknown(Vec<char>), Other }

spec fn lead_view(l: Lead) -> LeadView {
    match l {
        Lead::Literal(v) => LeadView::Literal(v@),
        Lead::Open => LeadView::Open,
        Lead::Negate => LeadView::Negate,
        Lead::Invert => LeadView::Invert,
        Lead::Conditional => LeadView::Conditional,
        Lead::Input(i) => LeadView::Input(i as nat),
        Lead::Unknown(w) => LeadView::Unknown(w@),
        Lead::Other => LeadView::Other,
    }
}

impl Parser {
    /// Classifies the current token as the start of an operand.
    fn lead(&self) -> (r: Lead)
        requires self.inv(),
        ensures
            lead_view(r) == lead_of(self.toks()[self.index as int], self.ins()),
            r matches Lead::Literal(v) ==> (self.tokens@[self.index as int].kind matches TokenKind::Literal(w) && v@ == w@),
            r matches Lead::Input(i) ==> i < self.inputs@.len(),
            !(r is Other) ==> !(self.tokens@[self.index as int].kind is End),
    {
        match &self.tokens[self.index].kind {
            TokenKind::Literal(v) => Lead::Literal(v.duplicate()),
            TokenKind::Symbol(s) => match s {
                Sym::LParen => Lead::Open,
                Sym::Minus => Lead::Negate,
                Sym::Bang => Lead::Invert,
                _ => Lead::Other,
            },
            TokenKind::Word(w) => {
                let not_word = chars_of("not");
                let if_word = chars_of("if");
                if chars_equal(w.as_slice(), not_word.as_slice()) {
                    Lead::Invert
                } else if chars_equal(w.as_slice(), if_word.as_slice()) {
                    Lead::Conditional
                } else {
                    let ghost ins = self.ins();
                    let mut i: usize = 0;
                    while i < self.names.len()
                        invariant
                            self.inv(), i <= self.names@.len(), !(self.tokens@[self.index as int].kind is End),
                            self.tokens@[self.index as int].kind == TokenKind::Word(*w),
                            w@ != "not"@, w@ != "if"@,
                            ins == self.ins(),
                            find_input(ins, w@, i as nat) == find_input(ins, w@, 0),
                        decreases self.names@.len() - i,
                    {
                        assert(ins[i as int].1 == self.inputs@[i as int].name@);
                        if chars_equal(self.names[i].as_slice(), w.as_slice()) {
                            return Lead::Input(i);
                        }
                        i += 1;
                    }
                    let copy = slice_chars(w, 0, w.len());
                    assert(copy@ =~= w@);
                    Lead::Unknown(copy)
                }
            }
            TokenKind::End => Lead::Other,
        }
    }

    /// The binary operator at the current token, with its precedence.
    fn binary_op(&self) -> (r: Option<(u8, Op)>)
        requires self.inv(),
        ensures
            r matches Some((p, op)) ==> 1 <= p <= 6 && !(self.tokens@[self.index as int].kind is End)
                && op != Op::Neg && op != Op::Not,
            (match r {
                Some((p, op)) => binop_of(self.toks()[self.index as int]) == Some((p as nat, op)),
                None => binop_of(self.toks()[self.index as int]) is None,
            }),
    {
        match &self.tokens[self.index].kind {
            TokenKind::Symbol(s) => match s {
                Sym::OrOr => Some((1, Op::Or)),
                Sym::AndAnd => Some((2, Op::And)),
                Sym::EqEq => Some((3, Op::Eq)),
                Sym::Ne => Some((3, Op::Ne)),
                Sym::Lt => Some((4, Op::Lt)),
                Sym::Le => Some((4, Op::Le)),
                Sym::Gt => Some((4, Op::Gt)),
                Sym::Ge => Some((4, Op::Ge)),
                Sym::Plus => Some((5, Op::Add)),
                Sym::Minus => Some((5, Op::Sub)),
                Sym::Star => Some((6, Op::Mul)),
                _ => None,
            },
            TokenKind::Word(w) => {
                let or_word = chars_of("or");
                let and_word = chars_of("and");
                if chars_equal(w.as_slice(), or_word.as_slice()) {
                    Some((1, Op::Or))
                } else if chars_equal(w.as_slice(), and_word.as_slice()) {
                    Some((2, Op::And))
                } else {
                    None
                }
            }
            _ => None,
        }
    }

    /// Consumes the closing symbol `sym`, written `text`, or fails.
    fn expect_symbol(&mut self, sym: Sym, text: &str) -> (r: Result<(), Diagnostic>)
        requires old(self).inv(),
        ensures
            final(self).inv(), final(self).extends(old(self)),
            final(self).nodes@ == old(self).nodes@, final(self).nesting == old(self).nesting,
            r matches Err(d) ==> d.code == "PARSE_ERROR",
            (match expect_symbol(old(self).toks(), old(self).state(), sym, text@) {
                Ok(st) => r is Ok && final(self).state() == st,
                Err(f) => r matches Err(d) && d.reports(f),
            }),
    {
        if self.is_symbol(sym) {
            self.advance();
            Ok(())
        } else {
            assert(self.nodes@.subrange(0, self.nodes@.len() as int) =~= self.nodes@);
            Err(self.expected(text))
        }
    }

    /// Consumes the word `text`, or fails.
    fn expect_word(&mut self, text: &str) -> (r: Result<(), Diagnostic>)
        requires old(self).inv(),
        ensures
            final(self).inv(), final(self).extends(old(self)),
            final(self).nodes@ == old(self).nodes@, final(self).nesting == old(self).nesting,
            r matches Err(d) ==> d.code == "PARSE_ERROR",
            (match expect_word(old(self).toks(), old(self).state(), text@) {
                Ok(st) => r is Ok && final(self).state() == st,
                Err(f) => r matches Err(d) && d.reports(f),
            }),
    {
        if self.is_word(text) {
            self.advance();
            Ok(())
        } else {
            assert(self.nodes@.subrange(0, self.nodes@.len() as int) =~= self.nodes@);
            Err(self.expected(text))
        }
    }

    /// Parses an operand and the binary operators that follow it whose precedence is at
    /// least `min`, one nesting level deeper.
    fn expression(&mut self, min: u8) -> (r: Result<usize, Diagnostic>)
        requires old(self).inv(), old(self).nesting <= MAX_DEPTH, min <= 7,
        ensures
            final(self).inv(), final(self).extends(old(self)),
            final(self).nesting == old(self).nesting,
            final(self).nodes@.len() + old(self).index <= final(self).index + old(self).nodes@.len(),
            r matches Ok(id) ==> id < final(self).nodes@.len(),
            r matches Err(d) ==> parse_code(d.code),
            (match parse_expression(old(self).toks(), old(self).ins(), old(self).state(), old(self).nesting as nat, min as nat) {
                Ok((st, id)) => r matches Ok(i) && i == id && final(self).state() == st,
                Err(f) => r matches Err(d) && d.reports(f),
            }),
        decreases 3 * (MAX_DEPTH + 1 - old(self).nesting),
    {
        if self.nesting >= MAX_DEPTH {
            assert(self.nodes@.subrange(0, self.nodes@.len() as int) =~= self.nodes@);
            return Err(Diagnostic::new("PARSE_ERROR", String::from_str("Expression nesting exceeds 128."), self.peek_span()));
        }
        self.nesting = self.nesting + 1;
        let result = self.expression_inner(min);
        self.nesting = self.nesting - 1;
        result
    }

    /// Parses one operand.
    fn operand(&mut self) -> (r: Result<usize, Diagnostic>)
        requires old(self).inv(), 1 <= old(self).nesting <= MAX_DEPTH,
        ensures
            final(self).inv(), final(self).extends(old(self)),
            final(self).nesting == old(self).nesting,
            final(self).nodes@.len() + old(self).index <= final(self).index + old(self).nodes@.len(),
            r matches Ok(id) ==> id < final(self).nodes@.len(),
            r matches Err(d) ==> parse_code(d.code),
            (match parse_operand(old(self).toks(), old(self).ins(), old(self).state(), old(self).nesting as nat) {
                Ok((st, id)) => r matches Ok(i) && i == id && final(self).state() == st,
                Err(f) => r matches Err(d) && d.reports(f),
            }),
        decreases 3 * (MAX_DEPTH + 1 - old(self).nesting) + 1,
    {
        let start = self.peek_span();
        assert(token_ok(self.tokens@[self.index as int], self.units@));
        let lead = self.lead();
        match lead {
            Lead::Other => {
                assert(self.nodes@.subrange(0, self.nodes@.len() as int) =~= self.nodes@);
                return Err(Diagnostic::new("PARSE_ERROR", String::from_str("Expected an expression."), start));
            }
            Lead::Unknown(name) => {
                assert(self.nodes@.subrange(0, self.nodes@.len() as int) =~= self.nodes@);
                let mut m = String::from_str("Unknown input ");
                let text = string_of(name.as_slice());
                push_str(&mut m, text.as_str());
                push_str(&mut m, "; calls are not supported here.");
                return Err(Diagnostic::new("UNKNOWN_NAME", m, start));
            }
            _ => {}
        }
        self.advance();
        match lead {
            Lead::Literal(v) => self.node(NodeKind::Literal(v), start),
            Lead::Open => {
                let id = self.expression(0)?;
                self.expect_symbol(Sym::RParen, ")")?;
                Ok(id)
            }
            Lead::Negate => {
                let child = self.expression(7)?;
                let e = self.end();
                self.node(NodeKind::Unary(Op::Neg, child), Span { start: start.start, end: e, line: start.line, column: start.column })
            }
            Lead::Invert => {
                let child = self.expression(7)?;
                let e = self.end();
                self.node(NodeKind::Unary(Op::Not, child), Span { start: start.start, end: e, line: start.line, column: start.column })
            }
            Lead::Conditional => {
                let cond = self.expression(0)?;
                self.expect_word("then")?;
                let yes = self.expression(0)?;
                self.expect_word("else")?;
                let no = self.expression(0)?;
                let e = self.end();
                self.node(NodeKind::If(cond, yes, no), Span { start: start.start, end: e, line: start.line, column: start.column })
            }
            Lead::Input(i) => self.node(NodeKind::Input(i), start),
            Lead::Unknown(_) => { Err(Diagnostic::new("PARSE_ERROR", String::from_str("Expected an expression."), start)) }
            Lead::Other => { Err(Diagnostic::new("PARSE_ERROR", String::from_str("Expected an expression."), start)) }
        }
    }

    fn expression_inner(&mut self, min: u8) -> (r: Result<usize, Diagnostic>)
        requires old(self).inv(), 1 <= old(self).nesting <= MAX_DEPTH, min <= 7,
        ensures
            final(self).inv(), final(self).extends(old(self)),
            final(self).nesting == old(self).nesting,
            final(self).nodes@.len() + old(self).index <= final(self).index + old(self).nodes@.len(),
            r matches Ok(id) ==> id < final(self).nodes@.len(),
            r matches Err(d) ==> parse_code(d.code),
            (match parse_operation(old(self).toks(), old(self).ins(), old(self).state(), old(self).nesting as nat, min as nat) {
                Ok((st, id)) => r matches Ok(i) && i == id && final(self).state() == st,
                Err(f) => r matches Err(d) && d.reports(f),
            }),
        decreases 3 * (MAX_DEPTH + 1 - old(self).nesting) + 2,
    {
        let ghost ts = self.toks();
        let ghost ins = self.ins();
        let ghost nesting = self.nesting as nat;
        let ghost goal = parse_operation(ts, ins, self.state(), nesting, min as nat);
        let mut left = self.operand()?;
        loop
            invariant
                self.inv(), self.extends(old(self)), self.nesting == old(self).nesting,
                1 <= self.nesting <= MAX_DEPTH,
                self.nodes@.len() + old(self).index <= self.index + old(self).nodes@.len(),
                left < self.nodes@.len(),
                ts == self.toks(), ins == self.ins(), nesting == self.nesting,
                goal == parse_operation(old(self).toks(), old(self).ins(), old(self).state(), old(self).nesting as nat, min as nat),
                goal == parse_operators(ts, ins, self.state(), nesting, min as nat, left as nat),
            ensures
                goal == Ok::<(ParseState, nat), Refusal>((self.state(), left as nat)),
            decreases self.tokens@.len() - self.index,
        {
            let operation = self.binary_op();
            let (precedence, op) = match operation {
                Some(x) => x,
                None => { break; }
            };
            if precedence < min {
                break;
            }
            let ghost st = self.state();
            self.advance();
            let right = self.expression(precedence + 1)?;
            assert(node_ok(self.nodes@, self.inputs@, left as int, self.units@));
            assert(node_ok(self.nodes@, self.inputs@, right as int, self.units@));
            let ls = self.nodes[left].span;
            let re = self.nodes[right].span.end;
            assert(self.state().nodes[left as int].span == ls);
            assert(self.state().nodes[right as int].span.end == re);
            left = self.node(NodeKind::Binary(op, left, right), Span { start: ls.start, end: re, line: ls.line, column: ls.column })?;
            assert(st.index < self.state().index < ts.len());
        }
        Ok(left)
    }
}

/// Codes with which compiling refuses a source and a schema.
pub open spec fn compile_code(c: &'static str) -> bool {
    c == "INPUT_SCHEMA" || parse_code(c)
}

/// Compiles an expression that declares no inputs.
pub fn compile_expression(source: &str) -> (r: Result<CompiledExpression, Diagnostic>)
    ensures
        (match compiled(source@, Seq::empty()) {
            Ok((nodes, root)) => r matches Ok(p) && node_views(p.spec_nodes()) == nodes && p.spec_root() == root,
            Err(f) => r matches Err(d) && d.reports(f),
        }),
        utf16_len(source@) > MAX_SOURCE_UNITS ==> (r matches Err(d) && d.code == "PARSE_ERROR" && d.span == spec_boundary_span()),
        r matches Ok(p) ==> p.spec_source() == source@ && p.spec_inputs().len() == 0,
        r matches Err(d) ==> parse_code(d.code),
{
    let none: Vec<InputSpec> = Vec::new();
    proof {
        assert(input_views(none@) =~= Seq::<InputView>::empty());
        assert(schema_ok(none@));
    }
    let r = compile_with_inputs(source, none.as_slice());
    proof {
        if let Ok(p) = &r {
            assert(input_views(p.spec_inputs()).len() == p.spec_inputs().len());
            assert(input_views(none@).len() == 0);
        }
    }
    r
}

/// Lexes, parses and type checks `source` against the declared `inputs`.
pub fn compile_with_inputs(source: &str, inputs: &[InputSpec]) -> (r: Result<CompiledExpression, Diagnostic>)
    ensures
        !schema_ok(inputs@) ==> (r matches Err(d) && d.code == "INPUT_SCHEMA" && d.span == spec_boundary_span()),
        schema_ok(inputs@) && utf16_len(source@) > MAX_SOURCE_UNITS ==>
            (r matches Err(d) && d.code == "PARSE_ERROR" && d.span == spec_boundary_span()),
        r matches Ok(p) ==> p.spec_source() == source@ && input_views(p.spec_inputs()) == input_views(inputs@)
            && compiled_from(p, source@, input_views(inputs@)),
        r matches Err(d) ==> compile_code(d.code),
        schema_ok(inputs@) ==> (r matches Err(d) ==> parse_code(d.code)),
        schema_ok(inputs@) ==> (match compiled(source@, input_views(inputs@)) {
            Ok((nodes, root)) => r matches Ok(p) && node_views(p.spec_nodes()) == nodes && p.spec_root() == root
                && p.spec_type() == nodes[root as int].ty,
            Err(f) => r matches Err(d) && d.reports(f),
        }),
{
    check_schema(inputs)?;
    let chars = chars_of(source);
    let units = match count_utf16_bounded(chars.as_slice(), MAX_SOURCE_UNITS) {
        Some(n) => n,
        None => {
            return Err(Diagnostic::new("PARSE_ERROR", String::from_str("Source exceeds the UTF-16 code-unit limit."), boundary_span()));
        }
    };
    proof { crate::lexer::lemma_lex_from_code(chars@, crate::lexer::first_cursor(), Seq::empty()); }
    let tokens = tokenize(chars)?;
    let copy = copy_specs(inputs);
    let mut names: Vec<Vec<char>> = Vec::new();
    let mut i: usize = 0;
    while i < copy.len()
        invariant
            i <= copy@.len(), names@.len() == i,
            forall|j: int| 0 <= j < i ==> (#[trigger] names@[j])@ == copy@[j].name@,
        decreases copy@.len() - i,
    {
        names.push(chars_of(copy[i].name.as_str()));
        i += 1;
    }
    proof { lemma_schema_views(inputs@, copy@); }
    let mut parser = Parser { tokens, index: 0, nodes: Vec::new(), nesting: 0, inputs: copy, names, units: Ghost(utf16_len(source@)) };
    proof {
        assert(node_views(parser.nodes@) =~= Seq::<NodeView>::empty());
        assert(parser.state() == ParseState { index: 0, nodes: Seq::<NodeView>::empty() });
        assert(parser.ins() == input_views(inputs@));
    }
    let root = parser.expression(0)?;
    if !parser.at_end() {
        return Err(Diagnostic::new("PARSE_ERROR", String::from_str("Unexpected token after expression."), parser.peek_span()));
    }
    let Parser { nodes, inputs: declared, .. } = parser;
    assert(node_views(nodes@)[root as int] == node_view(nodes@[root as int]));
    Ok(CompiledExpression { nodes, root, source: source.to_owned(), inputs: declared })
}

} // verus!

verus! {


/// Whether node `i` of arena `a` and node `j` of arena `b` are the same bound syntax:
/// the same operators, literals and operand order, and inputs of the same ID. Names
/// and spans are not compared.
pub open spec fn same_tree(a: Seq<Node>, ai: Seq<InputSpec>, i: int, b: Seq<Node>, bi: Seq<InputSpec>, j: int) -> bool
    decreases i,
{
    if !(0 <= i < a.len() && 0 <= j < b.len()) {
        false
    } else {
        match a[i].kind {
            NodeKind::Input(x) => match b[j].kind {
                NodeKind::Input(y) => x < ai.len() && y < bi.len() && ai[x as int].id@ == bi[y as int].id@,
                _ => false,
            },
            NodeKind::Literal(x) => match b[j].kind {
                NodeKind::Literal(y) => x@ == y@,
                _ => false,
            },
            NodeKind::Unary(o, x) => match b[j].kind {
                NodeKind::Unary(p, y) => o == p && x < i && y < j && same_tree(a, ai, x as int, b, bi, y as int),
                _ => false,
            },
            NodeKind::Binary(o, l, r) => match b[j].kind {
                NodeKind::Binary(p, x, y) => o == p && l < i && r < i && x < j && y < j
                    && same_tree(a, ai, l as int, b, bi, x as int) && same_tree(a, ai, r as int, b, bi, y as int),
                _ => false,
            },
            NodeKind::If(c, t, f) => match b[j].kind {
                NodeKind::If(d, u, v) => c < i && t < i && f < i && d < j && u < j && v < j
                    && same_tree(a, ai, c as int, b, bi, d as int) && same_tree(a, ai, t as int, b, bi, u as int)
                    && same_tree(a, ai, f as int, b, bi, v as int),
                _ => false,
            },
        }
    }
}

/// Whether two compiled expressions have the same bound syntax.
pub open spec fn same_logic_spec(a: CompiledExpression, b: CompiledExpression) -> bool {
    same_tree(a.spec_nodes(), a.spec_inputs(), a.spec_root(), b.spec_nodes(), b.spec_inputs(), b.spec_root())
}

/// Every well-formed node has the same bound syntax as itself.
pub proof fn lemma_same_tree_reflexive(a: Seq<Node>, ai: Seq<InputSpec>, i: int, units: nat)
    requires arena_ok(a, ai, units), 0 <= i < a.len(),
    ensures same_tree(a, ai, i, a, ai, i),
    decreases i,
{
    assert(node_ok(a, ai, i, units));
    match a[i].kind {
        NodeKind::Unary(_, x) => { lemma_same_tree_reflexive(a, ai, x as int, units); }
        NodeKind::Binary(_, l, r) => {
            lemma_same_tree_reflexive(a, ai, l as int, units);
            lemma_same_tree_reflexive(a, ai, r as int, units);
        }
        NodeKind::If(c, t, f) => {
            lemma_same_tree_reflexive(a, ai, c as int, units);
            lemma_same_tree_reflexive(a, ai, t as int, units);
            lemma_same_tree_reflexive(a, ai, f as int, units);
        }
        _ => {}
    }
}

/// Sameness of bound syntax does not depend on the order of the two nodes.
pub proof fn lemma_same_tree_symmetric(a: Seq<Node>, ai: Seq<InputSpec>, i: int, b: Seq<Node>, bi: Seq<InputSpec>, j: int)
    ensures same_tree(a, ai, i, b, bi, j) == same_tree(b, bi, j, a, ai, i),
    decreases i,
{
    if 0 <= i < a.len() && 0 <= j < b.len() {
        match (a[i].kind, b[j].kind) {
            (NodeKind::Unary(_, x), NodeKind::Unary(_, y)) => {
                if x < i { lemma_same_tree_symmetric(a, ai, x as int, b, bi, y as int); }
            }
            (NodeKind::Binary(_, l, r), NodeKind::Binary(_, x, y)) => {
                if l < i && r < i {
                    lemma_same_tree_symmetric(a, ai, l as int, b, bi, x as int);
                    lemma_same_tree_symmetric(a, ai, r as int, b, bi, y as int);
                }
            }
            (NodeKind::If(c, t, f), NodeKind::If(d, u, v)) => {
                if c < i && t < i && f < i {
                    lemma_same_tree_symmetric(a, ai, c as int, b, bi, d as int);
                    lemma_same_tree_symmetric(a, ai, t as int, b, bi, u as int);
                    lemma_same_tree_symmetric(a, ai, f as int, b, bi, v as int);
                }
            }
            _ => {}
        }
    }
}

/// Law: every compiled expression has the same logic as itself.
pub proof fn lemma_same_logic_reflexive(p: CompiledExpression)
    requires p.wf(),
    ensures same_logic_spec(p, p),
{
    p.lemma_wf();
    lemma_same_tree_reflexive(p.spec_nodes(), p.spec_inputs(), p.spec_root(), utf16_len(p.spec_source()));
}

/// Arenas with the same node views, over inputs with the same views, have the same bound
/// syntax at every well-formed node.
proof fn lemma_same_tree_views(a: Seq<Node>, ai: Seq<InputSpec>, b: Seq<Node>, bi: Seq<InputSpec>, i: int, units: nat)
    requires
        arena_ok(a, ai, units), 0 <= i < a.len(),
        node_views(a) == node_views(b), input_views(ai) == input_views(bi),
    ensures same_tree(a, ai, i, b, bi, i),
    decreases i,
{
    assert(node_ok(a, ai, i, units));
    assert(a.len() == node_views(a).len() && b.len() == node_views(b).len());
    assert(node_views(a)[i] == node_view(a[i]));
    assert(node_views(b)[i] == node_view(b[i]));
    assert(node_view(a[i]) == node_view(b[i]));
    assert(shape_of(a[i].kind) == shape_of(b[i].kind));
    match a[i].kind {
        NodeKind::Input(x) => {
            assert(ai.len() == input_views(ai).len() && bi.len() == input_views(bi).len());
            assert(input_views(ai)[x as int] == input_views(bi)[x as int]);
        }
        NodeKind::Unary(_, x) => { lemma_same_tree_views(a, ai, b, bi, x as int, units); }
        NodeKind::Binary(_, l, r) => {
            lemma_same_tree_views(a, ai, b, bi, l as int, units);
            lemma_same_tree_views(a, ai, b, bi, r as int, units);
        }
        NodeKind::If(c, t, f) => {
            lemma_same_tree_views(a, ai, b, bi, c as int, units);
            lemma_same_tree_views(a, ai, b, bi, t as int, units);
            lemma_same_tree_views(a, ai, b, bi, f as int, units);
        }
        NodeKind::Literal(_) => {}
    }
}

/// Law: compiling an expression's own source against its own inputs again gives the same
/// logic.
pub proof fn lemma_recompiled_same_logic(p: CompiledExpression, q: CompiledExpression)
    requires p.wf(), compiled_from(q, p.spec_source(), input_views(p.spec_inputs())),
    ensures same_logic_spec(p, q),
{
    p.lemma_wf();
    lemma_same_tree_views(p.spec_nodes(), p.spec_inputs(), q.spec_nodes(), q.spec_inputs(), p.spec_root(),
        utf16_len(p.spec_source()));
}

/// Law: `same_logic` is symmetric.
pub proof fn lemma_same_logic_symmetric(p: CompiledExpression, q: CompiledExpression)
    ensures same_logic_spec(p, q) == same_logic_spec(q, p),
{
    lemma_same_tree_symmetric(p.spec_nodes(), p.spec_inputs(), p.spec_root(), q.spec_nodes(), q.spec_inputs(), q.spec_root());
}

/// The references to declared inputs among the first nodes of an arena, in arena order:
/// ID, name and span of each.
pub open spec fn input_refs(nodes: Seq<Node>, inputs: Seq<InputSpec>) -> Seq<(Seq<char>, Seq<char>, Span)>
    decreases nodes.len(),
{
    if nodes.len() == 0 {
        Seq::empty()
    } else {
        let rest = input_refs(nodes.drop_last(), inputs);
        match nodes.last().kind {
            NodeKind::Input(k) => rest.push((inputs[k as int].id@, inputs[k as int].name@, nodes.last().span)),
            _ => rest,
        }
    }
}

/// What an input reference is: ID, name and span.
pub open spec fn reference_view(r: InputReference) -> (Seq<char>, Seq<char>, Span) {
    (r.id@, r.name@, r.span)
}

fn same(a: &CompiledExpression, ai: usize, b: &CompiledExpression, bi: usize) -> (r: bool)
    requires a.wf(), b.wf(), ai < a.nodes@.len(), bi < b.nodes@.len(),
    ensures r == same_tree(a.nodes@, a.inputs@, ai as int, b.nodes@, b.inputs@, bi as int),
    decreases ai,
{
    match &a.nodes[ai].kind {
        NodeKind::Input(x) => match &b.nodes[bi].kind {
            NodeKind::Input(y) => {
                assert(node_ok(a.nodes@, a.inputs@, ai as int, utf16_len(a.source@)));
                assert(node_ok(b.nodes@, b.inputs@, bi as int, utf16_len(b.source@)));
                str_equal(a.inputs[*x].id.as_str(), b.inputs[*y].id.as_str())
            }
            _ => false,
        },
        NodeKind::Literal(x) => match &b.nodes[bi].kind {
            NodeKind::Literal(y) => x.same(y),
            _ => false,
        },
        NodeKind::Unary(o, x) => match &b.nodes[bi].kind {
            NodeKind::Unary(p, y) => {
                assert(node_ok(a.nodes@, a.inputs@, ai as int, utf16_len(a.source@)));
                assert(node_ok(b.nodes@, b.inputs@, bi as int, utf16_len(b.source@)));
                *o == *p && same(a, *x, b, *y)
            }
            _ => false,
        },
        NodeKind::Binary(o, l, r) => match &b.nodes[bi].kind {
            NodeKind::Binary(p, x, y) => {
                assert(node_ok(a.nodes@, a.inputs@, ai as int, utf16_len(a.source@)));
                assert(node_ok(b.nodes@, b.inputs@, bi as int, utf16_len(b.source@)));
                *o == *p && same(a, *l, b, *x) && same(a, *r, b, *y)
            }
            _ => false,
        },
        NodeKind::If(c, t, f) => match &b.nodes[bi].kind {
            NodeKind::If(d, u, v) => {
                assert(node_ok(a.nodes@, a.inputs@, ai as int, utf16_len(a.source@)));
                assert(node_ok(b.nodes@, b.inputs@, bi as int, utf16_len(b.source@)));
                same(a, *c, b, *d) && same(a, *t, b, *u) && same(a, *f, b, *v)
            }
            _ => false,
        },
    }
}

impl CompiledExpression {
    /// Compares bound syntax, not behaviour on all inputs: input IDs and operand order
    /// count, names and spans do not.
    pub fn same_logic(&self, other: &Self) -> (r: bool)
        ensures r == same_logic_spec(*self, *other),
    {
        proof { use_type_invariant(self); use_type_invariant(other); }
        same(self, self.root, other, other.root)
    }

    /// The references to declared inputs, one per input node, in arena order.
    pub fn input_references(&self) -> (r: Vec<InputReference>)
        ensures r@.map_values(|x: InputReference| reference_view(x)) == input_refs(self.spec_nodes(), self.spec_inputs()),
    {
        proof { use_type_invariant(self); }
        let mut out: Vec<InputReference> = Vec::new();
        let mut i: usize = 0;
        while i < self.nodes.len()
            invariant
                self.wf(), i <= self.nodes@.len(),
                out@.map_values(|x: InputReference| reference_view(x)) == input_refs(self.nodes@.take(i as int), self.inputs@),
            decreases self.nodes@.len() - i,
        {
            let ghost before = out@;
            proof {
                assert(self.nodes@.take(i + 1).drop_last() =~= self.nodes@.take(i as int));
                assert(node_ok(self.nodes@, self.inputs@, i as int, utf16_len(self.source@)));
            }
            match &self.nodes[i].kind {
                NodeKind::Input(k) => {
                    let input = &self.inputs[*k];
                    out.push(InputReference { id: input.id.clone(), name: input.name.clone(), span: self.nodes[i].span });
                    assert(out@.map_values(|x: InputReference| reference_view(x)) =~=
                        before.map_values(|x: InputReference| reference_view(x)).push(reference_view(out@.last())));
                }
                _ => {}
            }
            i += 1;
        }
        assert(self.nodes@.take(self.nodes@.len() as int) =~= self.nodes@);
        out
    }
}

pub open spec fn not_literal(span: Span) -> Refusal {
    Refusal { code: "INPUT_LITERAL", message: "Expected a scalar literal, not a calculation."@, span }
}

/// The scalar that a compiled arena writes: a literal, or a negated integer literal.
pub open spec fn literal_of(nodes: Seq<NodeView>, root: nat) -> Result<ValueModel, Refusal> {
    match nodes[root as int].shape {
        NodeShape::Literal(v) => Ok(v),
        NodeShape::Unary(op, c) => if op == Op::Neg {
            match nodes[c as int].shape {
                NodeShape::Literal(ValueModel::Int(n)) => Ok(ValueModel::Int((-n) as i64)),
                _ => Err(not_literal(nodes[root as int].span)),
            }
        } else {
            Err(not_literal(nodes[root as int].span))
        },
        _ => Err(not_literal(nodes[root as int].span)),
    }
}

/// Reads a scalar literal given to an input: a literal, possibly in parentheses, or a
/// negated integer literal. Calculations are refused.
pub fn parse_input_literal(source: &str) -> (r: Result<Value, Diagnostic>)
    ensures
        (match compiled(source@, Seq::empty()) {
            Err(f) => r matches Err(d) && d.reports(f),
            Ok((nodes, root)) => match literal_of(nodes, root) {
                Ok(v) => r matches Ok(x) && x@ == v,
                Err(f) => r matches Err(d) && d.reports(f),
            },
        }),
        r matches Err(d) ==> parse_code(d.code) || d.code == "INPUT_LITERAL",
        utf16_len(source@) > MAX_SOURCE_UNITS ==> (r matches Err(d) && d.code == "PARSE_ERROR"),
        r matches Ok(v) ==> (v@ matches ValueModel::Int(n) ==> in_domain(n as int)),
{
    let program = compile_expression(source)?;
    proof { use_type_invariant(&program); }
    let ghost views = node_views(program.nodes@);
    assert(node_ok(program.nodes@, program.inputs@, program.root as int, utf16_len(program.source@)));
    assert(views[program.root as int] == node_view(program.nodes@[program.root as int]));
    match &program.nodes[program.root].kind {
        NodeKind::Literal(value) => Ok(value.duplicate()),
        NodeKind::Unary(Op::Neg, child) => {
            assert(node_ok(program.nodes@, program.inputs@, *child as int, utf16_len(program.source@)));
            assert(views[*child as int] == node_view(program.nodes@[*child as int]));
            match &program.nodes[*child].kind {
                NodeKind::Literal(Value::Int(n)) => Ok(Value::Int(-*n)),
                _ => Err(Diagnostic::new("INPUT_LITERAL", String::from_str("Expected a scalar literal, not a calculation."), program.span())),
            }
        }
        _ => Err(Diagnostic::new("INPUT_LITERAL", String::from_str("Expected a scalar literal, not a calculation."), program.span())),
    }
}

} // verus!

verus! {

/// The source `true` compiles against any valid schema.
pub proof fn lemma_true_compiles(ins: Seq<InputView>)
    ensures compiled("true"@, ins) is Ok,
{
    reveal_strlit("true");
    let cs = "true"@;
    assert(cs == seq!['t', 'r', 'u', 'e']);
    assert(utf16_len(cs) == 4) by {
        reveal_with_fuel(utf16_len, 5);
        assert(cs.drop_last() =~= seq!['t', 'r', 'u']);
        assert(cs.drop_last().drop_last() =~= seq!['t', 'r']);
        assert(cs.drop_last().drop_last().drop_last() =~= seq!['t']);
        assert(cs.drop_last().drop_last().drop_last().drop_last() =~= Seq::<char>::empty());
    }
    let a0 = crate::lexer::first_cursor();
    let a1 = crate::lexer::next(cs, a0);
    let a2 = crate::lexer::next(cs, a1);
    let a3 = crate::lexer::next(cs, a2);
    let a4 = crate::lexer::next(cs, a3);
    assert(a4.pos == 4);
    assert(crate::lexer::skip_word(cs, a4) == a4);
    assert(crate::lexer::skip_word(cs, a3) == a4);
    assert(crate::lexer::skip_word(cs, a2) == a4);
    assert(crate::lexer::skip_word(cs, a1) == a4);
    assert(crate::lexer::skip_word(cs, a0) == a4);
    assert(cs.subrange(0, 4) =~= seq!['t', 'r', 'u', 'e']);
    let tok = TokenView { kind: Lexeme::Literal(ValueModel::Bool(true)), span: crate::lexer::stretch(a0, a4) };
    assert(crate::lexer::lex_token(cs, a0) == Ok::<(TokenView, crate::lexer::Cursor), Refusal>((tok, a4)));
    let end = TokenView { kind: Lexeme::End, span: crate::lexer::point(a4) };
    assert(crate::lexer::lex_from(cs, a4, seq![tok]) == Ok::<Seq<TokenView>, Refusal>(seq![tok].push(end)));
    assert(!crate::lexer::comment_at(cs, a0));
    assert(crate::lexer::lex_from(cs, a0, Seq::empty()) == crate::lexer::lex_from(cs, a4, Seq::<TokenView>::empty().push(tok)));
    assert(Seq::<TokenView>::empty().push(tok) =~= seq![tok]);
    let ts = seq![tok].push(end);
    assert(crate::lexer::lex(cs) == Ok::<Seq<TokenView>, Refusal>(ts));
    let st0 = ParseState { index: 0, nodes: Seq::empty() };
    let st1 = ParseState { index: 1, nodes: Seq::empty() };
    let node = NodeView { shape: NodeShape::Literal(ValueModel::Bool(true)), span: tok.span, ty: Type::Bool, depth: 1 };
    let st2 = ParseState { index: 1, nodes: seq![node] };
    assert(ts[0] == tok && ts[1] == end);
    assert(lead_of(ts[0], ins) == LeadView::Literal(ValueModel::Bool(true)));
    assert(add_node(ins, st1, NodeShape::Literal(ValueModel::Bool(true)), tok.span) == Ok::<(ParseState, nat), Refusal>((st2, 0nat)));
    assert(parse_operand(ts, ins, st0, 1) == Ok::<(ParseState, nat), Refusal>((st2, 0nat)));
    assert(binop_of(ts[1]) is None);
    assert(parse_operators(ts, ins, st2, 1, 0, 0) == Ok::<(ParseState, nat), Refusal>((st2, 0nat)));
    assert(parse_expression(ts, ins, st0, 0, 0) == Ok::<(ParseState, nat), Refusal>((st2, 0nat)));
    assert(parse_tokens(ts, ins) is Ok);
}

} // verus!
