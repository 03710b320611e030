use vstd::prelude::*;

verus! {

/// A binary operator.
#[derive(Debug, Clone, Copy, PartialEq, Eq, Structural)]
pub enum Op {
    Add,
    Sub,
    Mul,
    Div,
    /// `a..b`
    Range,
    /// `a..=b`
    RangeInclusive,
    /// `a ++ b`
    Concat,
}

/// A glaze expression. Numbers are fixed-point, in millionths; a variable
/// reference and a function call keep their `(line, column)` in the source.
#[derive(Debug)]
pub enum Expr {
    Keyword(Vec<u8>),
    Hash(Vec<u8>),
    Number(i64),
    Str(Vec<u8>),
    Dimension(i64, Vec<u8>),
    Variable(Vec<u8>, (usize, usize)),
    Interpolation(Vec<Expr>),
    Tuple(Vec<Expr>),
    ObjectAccessor(Box<Expr>, Vec<Vec<u8>>),
    /// Field names and, in the same order, their expressions.
    Object(Vec<Vec<u8>>, Vec<Expr>),
    ArrayAccessor(Box<Expr>, Box<Expr>),
    Array(Vec<Expr>),
    Operation(Op, Box<Expr>, Box<Expr>),
    FunctionCall(Vec<u8>, Vec<Expr>, (usize, usize)),
}

/// A statement inside a block.
#[derive(Debug)]
pub enum Line {
    VarDef(Vec<u8>, Expr),
    ForLoop(Vec<u8>, Expr, Vec<Line>),
    Return(Expr),
}

/// A declaration `name: value`, or a mixin call when `name` is a mixin.
#[derive(Debug)]
pub struct Property {
    pub name: Vec<u8>,
    pub expr: Expr,
}

/// A selector block.
#[derive(Debug)]
pub struct Selector {
    pub sels: Vec<Vec<u8>>,
    pub lines: Vec<Line>,
    pub props: Vec<Property>,
    pub nested: Vec<Selector>,
}

#[derive(Debug)]
pub struct Mixin {
    pub name: Vec<u8>,
    pub params: Vec<Vec<u8>>,
    pub lines: Vec<Line>,
    pub props: Vec<Property>,
}

#[derive(Debug)]
pub struct Function {
    pub name: Vec<u8>,
    pub params: Vec<Vec<u8>>,
    pub lines: Vec<Line>,
}

/// A top-level item of a stylesheet.
#[derive(Debug)]
pub enum Node {
    Comment(Vec<u8>),
    Line(Line),
    Selector(Selector),
    Mixin(Mixin),
    Function(Function),
    EOI,
}

/// The mathematical form of an `Expr`.
pub enum ExprV {
    Keyword(Seq<u8>),
    Hash(Seq<u8>),
    Number(int),
    Str(Seq<u8>),
    Dimension(int, Seq<u8>),
    Variable(Seq<u8>, (usize, usize)),
    Interpolation(Seq<ExprV>),
    Tuple(Seq<ExprV>),
    ObjectAccessor(Box<ExprV>, Seq<Seq<u8>>),
    Object(Seq<Seq<u8>>, Seq<ExprV>),
    ArrayAccessor(Box<ExprV>, Box<ExprV>),
    Array(Seq<ExprV>),
    Operation(Op, Box<ExprV>, Box<ExprV>),
    FunctionCall(Seq<u8>, Seq<ExprV>, (usize, usize)),
}

pub enum LineV {
    VarDef(Seq<u8>, ExprV),
    ForLoop(Seq<u8>, ExprV, Seq<LineV>),
    Return(ExprV),
}

pub struct PropertyV {
    pub name: Seq<u8>,
    pub expr: ExprV,
}

pub struct SelectorV {
    pub sels: Seq<Seq<u8>>,
    pub lines: Seq<LineV>,
    pub props: Seq<PropertyV>,
    pub nested: Seq<SelectorV>,
}

pub enum NodeV {
    Comment(Seq<u8>),
    Line(LineV),
    Selector(SelectorV),
    Mixin(Seq<u8>, Seq<Seq<u8>>, Seq<LineV>, Seq<PropertyV>),
    Function(Seq<u8>, Seq<Seq<u8>>, Seq<LineV>),
    EOI,
}

pub open spec fn texts(v: Seq<Vec<u8>>) -> Seq<Seq<u8>> {
    v.map_values(|t: Vec<u8>| t@)
}

pub open spec fn expr_v(e: Expr) -> ExprV
    decreases e,
{
    match e {
        Expr::Keyword(s) => ExprV::Keyword(s@),
        Expr::Hash(s) => ExprV::Hash(s@),
        Expr::Number(n) => ExprV::Number(n as int),
        Expr::Str(s) => ExprV::Str(s@),
        Expr::Dimension(n, u) => ExprV::Dimension(n as int, u@),
        Expr::Variable(name, at) => ExprV::Variable(name@, at),
        Expr::Interpolation(parts) => ExprV::Interpolation(exprs_v(parts@)),
        Expr::Tuple(items) => ExprV::Tuple(exprs_v(items@)),
        Expr::ObjectAccessor(obj, fields) => ExprV::ObjectAccessor(Box::new(expr_v(*obj)), texts(fields@)),
        Expr::Object(names, items) => ExprV::Object(texts(names@), exprs_v(items@)),
        Expr::ArrayAccessor(a, i) => ExprV::ArrayAccessor(Box::new(expr_v(*a)), Box::new(expr_v(*i))),
        Expr::Array(items) => ExprV::Array(exprs_v(items@)),
        Expr::Operation(op, a, b) => ExprV::Operation(op, Box::new(expr_v(*a)), Box::new(expr_v(*b))),
        Expr::FunctionCall(name, args, at) => ExprV::FunctionCall(name@, exprs_v(args@), at),
    }
}

pub open spec fn exprs_v(s: Seq<Expr>) -> Seq<ExprV>
    decreases s,
{
    if s.len() == 0 {
        Seq::empty()
    } else {
        exprs_v(s.drop_last()).push(expr_v(s.last()))
    }
}


pub open spec fn line_v(l: Line) -> LineV
    decreases l,
{
    match l {
        Line::VarDef(name, e) => LineV::VarDef(name@, expr_v(e)),
        Line::ForLoop(name, e, body) => LineV::ForLoop(name@, expr_v(e), lines_v(body@)),
        Line::Return(e) => LineV::Return(expr_v(e)),
    }
}

pub open spec fn lines_v(s: Seq<Line>) -> Seq<LineV>
    decreases s,
{
    if s.len() == 0 {
        Seq::empty()
    } else {
        lines_v(s.drop_last()).push(line_v(s.last()))
    }
}

pub open spec fn prop_v(p: Property) -> PropertyV {
    PropertyV { name: p.name@, expr: expr_v(p.expr) }
}

pub open spec fn props_v(s: Seq<Property>) -> Seq<PropertyV> {
    s.map_values(|p: Property| prop_v(p))
}

pub open spec fn sel_v(sel: Selector) -> SelectorV
    decreases sel,
{
    SelectorV { sels: texts(sel.sels@), lines: lines_v(sel.lines@), props: props_v(sel.props@), nested: sels_v(sel.nested@) }
}

pub open spec fn sels_v(s: Seq<Selector>) -> Seq<SelectorV>
    decreases s,
{
    if s.len() == 0 {
        Seq::empty()
    } else {
        sels_v(s.drop_last()).push(sel_v(s.last()))
    }
}

pub open spec fn node_v(n: Node) -> NodeV {
    match n {
        Node::Comment(c) => NodeV::Comment(c@),
        Node::Line(l) => NodeV::Line(line_v(l)),
        Node::Selector(s) => NodeV::Selector(sel_v(s)),
        Node::Mixin(m) => NodeV::Mixin(m.name@, texts(m.params@), lines_v(m.lines@), props_v(m.props@)),
        Node::Function(f) => NodeV::Function(f.name@, texts(f.params@), lines_v(f.lines@)),
        Node::EOI => NodeV::EOI,
    }
}

pub open spec fn nodes_v(s: Seq<Node>) -> Seq<NodeV> {
    s.map_values(|n: Node| node_v(n))
}

pub proof fn lemma_lines_v(s: Seq<Line>)
    ensures
        lines_v(s).len() == s.len(),
        forall|i: int| 0 <= i < s.len() ==> #[trigger] lines_v(s)[i] == line_v(s[i]),
    decreases s.len(),
{
    if s.len() > 0 {
        lemma_lines_v(s.drop_last());
    }
}

pub proof fn lemma_lines_v_prepend(l: Line, s: Seq<Line>)
    ensures
        lines_v(seq![l] + s) == seq![line_v(l)] + lines_v(s),
{
    lemma_lines_v(s);
    lemma_lines_v(seq![l] + s);
    assert(lines_v(seq![l] + s) =~= seq![line_v(l)] + lines_v(s));
}

pub proof fn lemma_sels_v(s: Seq<Selector>)
    ensures
        sels_v(s).len() == s.len(),
        forall|i: int| 0 <= i < s.len() ==> #[trigger] sels_v(s)[i] == sel_v(s[i]),
    decreases s.len(),
{
    if s.len() > 0 {
        lemma_sels_v(s.drop_last());
    }
}

pub proof fn lemma_sels_v_prepend(x: Selector, s: Seq<Selector>)
    ensures
        sels_v(seq![x] + s) == seq![sel_v(x)] + sels_v(s),
{
    lemma_sels_v(s);
    lemma_sels_v(seq![x] + s);
    assert(sels_v(seq![x] + s) =~= seq![sel_v(x)] + sels_v(s));
}

pub proof fn lemma_exprs_v(s: Seq<Expr>)
    ensures
        exprs_v(s).len() == s.len(),
        forall|i: int| 0 <= i < s.len() ==> #[trigger] exprs_v(s)[i] == expr_v(s[i]),
    decreases s.len(),
{
    if s.len() > 0 {
        lemma_exprs_v(s.drop_last());
    }
}

pub proof fn lemma_exprs_v_push(s: Seq<Expr>, e: Expr)
    ensures
        exprs_v(s.push(e)) == exprs_v(s).push(expr_v(e)),
{
    assert(s.push(e).drop_last() =~= s);
}

pub proof fn lemma_exprs_v_prepend(e: Expr, s: Seq<Expr>)
    ensures
        exprs_v(seq![e] + s) == seq![expr_v(e)] + exprs_v(s),
{
    lemma_exprs_v(s);
    lemma_exprs_v(seq![e] + s);
    assert(exprs_v(seq![e] + s) =~= seq![expr_v(e)] + exprs_v(s));
}

} // verus!
