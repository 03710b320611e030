//! The meaning of a stylesheet, as spec functions: what the generator computes.
use vstd::prelude::*;
use crate::error::ErrorKind;
use crate::nodes::{Expr, Function, Line, Mixin, Node, Op, Property, Selector};
use crate::num::{add_spec, div_spec, mul_spec, num_text, sub_spec, UNIT};
use crate::value::{names_view, Val};

verus! {

/// The mathematical form of an error.
pub struct Fault {
    pub kind: ErrorKind,
    pub detail: Seq<u8>,
    pub at: Option<(usize, usize)>,
}

pub open spec fn fault(kind: ErrorKind, detail: Seq<u8>, at: Option<(usize, usize)>) -> Fault {
    Fault { kind, detail, at }
}

/// One scope frame: names and their values, in the order they were bound.
pub type Frame = Seq<(Seq<u8>, Val)>;

/// Scope frames, outermost first.
pub type Stack = Seq<Frame>;

/// The mixins and functions declared so far, in declaration order.
pub struct Env {
    pub mixins: Seq<Mixin>,
    pub functions: Seq<Function>,
}

/// How many mixin or function calls may be open at once.
pub const MAX_DEPTH: u32 = 64;

/// The first place where `name` stands in `names`.
pub open spec fn position_of(names: Seq<Seq<u8>>, name: Seq<u8>) -> Option<int>
    decreases names.len(),
{
    if names.len() == 0 {
        None
    } else if names[0] == name {
        Some(0)
    } else {
        match position_of(names.drop_first(), name) {
            Some(i) => Some(i + 1),
            None => None,
        }
    }
}

pub proof fn lemma_position_of(names: Seq<Seq<u8>>, name: Seq<u8>)
    ensures
        position_of(names, name) is Some ==> {
            let i = position_of(names, name)->Some_0;
            &&& 0 <= i < names.len()
            &&& names[i] == name
            &&& forall|k: int| 0 <= k < i ==> names[k] != name
        },
        position_of(names, name) is None ==> forall|k: int| 0 <= k < names.len() ==> names[k] != name,
    decreases names.len(),
{
    if names.len() > 0 {
        lemma_position_of(names.drop_first(), name);
        if names[0] != name {
            match position_of(names.drop_first(), name) {
                Some(i) => {
                    assert forall|k: int| 0 <= k < i + 1 implies names[k] != name by {
                        if k > 0 {
                            assert(names[k] == names.drop_first()[k - 1]);
                        }
                    }
                }
                None => {
                    assert forall|k: int| 0 <= k < names.len() implies names[k] != name by {
                        if k > 0 {
                            assert(names[k] == names.drop_first()[k - 1]);
                        }
                    }
                }
            }
        }
    }
}

/// The first place of `name` is `i` when it stands there and nowhere before.
pub proof fn lemma_first_match(names: Seq<Seq<u8>>, name: Seq<u8>, i: int)
    requires
        0 <= i < names.len(),
        names[i] == name,
        forall|k: int| 0 <= k < i ==> names[k] != name,
    ensures
        position_of(names, name) == Some(i),
{
    lemma_position_of(names, name);
    match position_of(names, name) {
        Some(j) => {
            if j < i {
                assert(names[j] != name);
            } else if j > i {
                assert(names[i] != name);
            }
        },
        None => {
            assert(names[i] != name);
        },
    }
}

pub open spec fn frame_names(f: Frame) -> Seq<Seq<u8>> {
    f.map_values(|p: (Seq<u8>, Val)| p.0)
}

pub open spec fn mixin_names(ms: Seq<Mixin>) -> Seq<Seq<u8>> {
    ms.map_values(|m: Mixin| m.name@)
}

pub open spec fn function_names(fs: Seq<Function>) -> Seq<Seq<u8>> {
    fs.map_values(|f: Function| f.name@)
}

/// The value of `name`: the innermost frame that binds it decides.
pub open spec fn lookup(stack: Stack, name: Seq<u8>) -> Option<Val>
    decreases stack.len(),
{
    if stack.len() == 0 {
        None
    } else {
        match position_of(frame_names(stack.last()), name) {
            Some(i) => Some(stack.last()[i].1),
            None => lookup(stack.drop_last(), name),
        }
    }
}

/// Binds `name` in the innermost frame, replacing a binding of it there.
pub open spec fn define(stack: Stack, name: Seq<u8>, v: Val) -> Stack {
    if stack.len() == 0 {
        seq![seq![(name, v)]]
    } else {
        let top = stack.last();
        let new_top = match position_of(frame_names(top), name) {
            Some(i) => top.update(i, (name, v)),
            None => top.push((name, v)),
        };
        stack.drop_last().push(new_top)
    }
}

/// A frame binding each parameter to the argument in its place.
pub open spec fn bind(params: Seq<Seq<u8>>, args: Seq<Val>) -> Frame {
    Seq::new(params.len(), |i: int| (params[i], args[i]))
}

pub open spec fn op_text(op: Op) -> Seq<u8> {
    match op {
        Op::Add => seq![43u8],
        Op::Sub => seq![45u8],
        Op::Mul => seq![42u8],
        Op::Div => seq![47u8],
        Op::Range => seq![46u8, 46u8],
        Op::RangeInclusive => seq![46u8, 46u8, 61u8],
        Op::Concat => seq![43u8, 43u8],
    }
}

/// A number used as a count: its whole part, 0 when negative, at most `u32::MAX`.
pub open spec fn count_of(n: int) -> int {
    if n < 0 {
        0
    } else if n / (UNIT as int) > 0xffff_ffff {
        0xffff_ffff
    } else {
        n / (UNIT as int)
    }
}

/// The whole numbers from `lo` up to, not including, `hi`.
pub open spec fn range_vals(lo: int, hi: int) -> Seq<Val> {
    Seq::new(if hi > lo { (hi - lo) as nat } else { 0 }, |i: int| Val::Number((lo + i) * UNIT))
}

pub open spec fn arith(op: Op, a: int, b: int) -> Result<Val, Fault> {
    let r = match op {
        Op::Add => add_spec(a, b),
        Op::Sub => sub_spec(a, b),
        Op::Mul => mul_spec(a, b),
        _ => div_spec(a, b),
    };
    match r {
        Some(v) => Ok(Val::Number(v)),
        None => if op == Op::Div && b == 0 {
            Err(fault(ErrorKind::DivisionByZero, op_text(op), None))
        } else {
            Err(fault(ErrorKind::NumberOutOfRange, op_text(op), None))
        },
    }
}

/// `++`: joins arrays, then tuples, then strings; a lone item joins the sequence beside it.
pub open spec fn concat(a: Val, b: Val) -> Result<Val, Fault> {
    match (a, b) {
        (Val::Array(x), Val::Array(y)) => Ok(Val::Array(x + y)),
        (Val::Array(x), _) => Ok(Val::Array(x.push(b))),
        (_, Val::Array(y)) => Ok(Val::Array(seq![a] + y)),
        (Val::Tuple(x), Val::Tuple(y)) => Ok(Val::Tuple(x + y)),
        (Val::Tuple(x), _) => Ok(Val::Tuple(x.push(b))),
        (_, Val::Tuple(y)) => Ok(Val::Tuple(seq![a] + y)),
        (Val::Str(x), Val::Str(y)) => Ok(Val::Str(x + y)),
        _ => Err(fault(ErrorKind::InvalidOperands, op_text(Op::Concat), None)),
    }
}

pub open spec fn apply_op(op: Op, a: Val, b: Val) -> Result<Val, Fault> {
    match op {
        Op::Concat => concat(a, b),
        Op::Range | Op::RangeInclusive => match (a, b) {
            (Val::Number(x), Val::Number(y)) => {
                let hi = if op == Op::Range { count_of(y) } else { count_of(y) + 1 };
                Ok(Val::Array(range_vals(count_of(x), hi)))
            },
            _ => Err(fault(ErrorKind::InvalidOperands, op_text(op), None)),
        },
        _ => match (a, b) {
            (Val::Number(x), Val::Number(y)) => arith(op, x, y),
            _ => Err(fault(ErrorKind::InvalidOperands, op_text(op), None)),
        },
    }
}

/// Field `f` of an object.
pub open spec fn field_of(v: Val, f: Seq<u8>) -> Result<Val, Fault> {
    match v {
        Val::Object(names, vals) => match position_of(names, f) {
            Some(i) => if i < vals.len() {
                Ok(vals[i])
            } else {
                Err(fault(ErrorKind::FieldNotFound, f, None))
            },
            None => Err(fault(ErrorKind::FieldNotFound, f, None)),
        },
        _ => Err(fault(ErrorKind::NotAnObject, f, None)),
    }
}

/// Follows a chain of field names, one field at a time.
pub open spec fn access(v: Val, fields: Seq<Seq<u8>>) -> Result<Val, Fault>
    decreases fields.len(),
{
    if fields.len() == 0 {
        Ok(v)
    } else {
        match field_of(v, fields[0]) {
            Ok(w) => access(w, fields.drop_first()),
            Err(e) => Err(e),
        }
    }
}

/// Item `idx` of an array.
pub open spec fn index_into(arr: Val, idx: Val) -> Result<Val, Fault> {
    match arr {
        Val::Array(items) => match idx {
            Val::Number(n) => {
                let k = if n < 0 { 0 } else { n / (UNIT as int) };
                if k < items.len() {
                    Ok(items[k])
                } else {
                    Err(fault(ErrorKind::IndexOutOfRange, Seq::empty(), None))
                }
            },
            _ => Err(fault(ErrorKind::IndexNotNumber, Seq::empty(), None)),
        },
        _ => Err(fault(ErrorKind::NotAnArray, Seq::empty(), None)),
    }
}

/// The CSS text of a value.
pub open spec fn render(v: Val) -> Result<Seq<u8>, Fault>
    decreases v, 2nat,
{
    match v {
        Val::Keyword(s) => Ok(s),
        Val::Hash(s) => Ok(seq![35u8] + s),
        Val::Number(n) => Ok(num_text(n)),
        Val::Str(s) => Ok(seq![34u8] + s + seq![34u8]),
        Val::Dimension(n, u) => Ok(num_text(n) + u),
        Val::Tuple(items) => render_join(items, seq![32u8]),
        Val::Array(items) => render_join(items, seq![44u8, 32u8]),
        Val::Object(_, _) => Err(fault(ErrorKind::ObjectInCss, Seq::empty(), None)),
    }
}

/// The texts of `items`, with `sep` between each two.
pub open spec fn render_join(items: Seq<Val>, sep: Seq<u8>) -> Result<Seq<u8>, Fault>
    decreases items, 1nat,
{
    render_sep(items, sep, true)
}

/// The texts of `items`, each but the first (when `first`) preceded by `sep`.
pub open spec fn render_sep(items: Seq<Val>, sep: Seq<u8>, first: bool) -> Result<Seq<u8>, Fault>
    decreases items, 0nat,
{
    if items.len() == 0 {
        Ok(Seq::empty())
    } else {
        match render(items[0]) {
            Err(e) => Err(e),
            Ok(u) => match render_sep(items.drop_first(), sep, false) {
                Err(e) => Err(e),
                Ok(t) => Ok((if first { u } else { sep + u }) + t),
            },
        }
    }
}

/// The value of an expression.
pub open spec fn eval_expr(env: Env, stack: Stack, e: Expr, fuel: nat) -> Result<Val, Fault>
    decreases fuel, 0nat, e, 0nat,
{
    match e {
        Expr::Keyword(s) => Ok(Val::Keyword(s@)),
        Expr::Hash(s) => Ok(Val::Hash(s@)),
        Expr::Number(n) => Ok(Val::Number(n as int)),
        Expr::Str(s) => Ok(Val::Str(s@)),
        Expr::Dimension(n, u) => Ok(Val::Dimension(n as int, u@)),
        Expr::Variable(name, at) => match lookup(stack, name@) {
            Some(v) => Ok(v),
            None => Err(fault(ErrorKind::UndefinedVariable, name@, Some(at))),
        },
        Expr::Interpolation(parts) => match interpolate(env, stack, parts@, fuel) {
            Ok(t) => Ok(Val::Keyword(t)),
            Err(e) => Err(e),
        },
        Expr::Tuple(items) => match eval_seq(env, stack, items@, fuel) {
            Ok(vs) => Ok(Val::Tuple(vs)),
            Err(e) => Err(e),
        },
        Expr::Array(items) => match eval_seq(env, stack, items@, fuel) {
            Ok(vs) => Ok(Val::Array(vs)),
            Err(e) => Err(e),
        },
        Expr::Object(names, items) => match eval_seq(env, stack, items@, fuel) {
            Ok(vs) => Ok(Val::Object(names_view(names@), vs)),
            Err(e) => Err(e),
        },
        Expr::ObjectAccessor(obj, fields) => match eval_expr(env, stack, *obj, fuel) {
            Ok(v) => access(v, names_view(fields@)),
            Err(e) => Err(e),
        },
        Expr::ArrayAccessor(arr, idx) => match eval_expr(env, stack, *arr, fuel) {
            Ok(a) => match eval_expr(env, stack, *idx, fuel) {
                Ok(i) => index_into(a, i),
                Err(e) => Err(e),
            },
            Err(e) => Err(e),
        },
        Expr::Operation(op, a, b) => match eval_expr(env, stack, *a, fuel) {
            Ok(x) => match eval_expr(env, stack, *b, fuel) {
                Ok(y) => apply_op(op, x, y),
                Err(e) => Err(e),
            },
            Err(e) => Err(e),
        },
        Expr::FunctionCall(name, args, at) => match position_of(function_names(env.functions), name@) {
            None => Err(fault(ErrorKind::UndefinedFunction, name@, Some(at))),
            Some(i) => {
                let f = env.functions[i];
                if args@.len() < f.params@.len() {
                    Err(fault(ErrorKind::NotEnoughArguments, name@, Some(at)))
                } else {
                    match eval_seq(env, stack, args@, fuel) {
                        Err(e) => Err(e),
                        Ok(vals) => if fuel == 0 {
                            Err(fault(ErrorKind::RecursionLimit, name@, Some(at)))
                        } else {
                            let frame = bind(names_view(f.params@), vals);
                            match exec_lines(env, stack.push(frame), f.lines@, (fuel - 1) as nat) {
                                Err(e) => Err(e),
                                Ok((_, Some(v))) => Ok(v),
                                Ok((_, None)) => Err(fault(ErrorKind::MissingReturn, name@, Some(at))),
                            }
                        },
                    }
                }
            },
        },
    }
}

/// Evaluating expressions gives one value for each.
pub proof fn lemma_eval_seq_len(env: Env, stack: Stack, es: Seq<Expr>, fuel: nat)
    ensures
        eval_seq(env, stack, es, fuel) matches Ok(vs) ==> vs.len() == es.len(),
    decreases es.len(),
{
    if es.len() > 0 {
        lemma_eval_seq_len(env, stack, es.drop_first(), fuel);
    }
}

/// The values of expressions, from left to right.
pub open spec fn eval_seq(env: Env, stack: Stack, es: Seq<Expr>, fuel: nat) -> Result<Seq<Val>, Fault>
    decreases fuel, 0nat, es, 0nat,
{
    if es.len() == 0 {
        Ok(Seq::empty())
    } else {
        match eval_expr(env, stack, es[0], fuel) {
            Err(e) => Err(e),
            Ok(v) => match eval_seq(env, stack, es.drop_first(), fuel) {
                Ok(vs) => Ok(seq![v] + vs),
                Err(e) => Err(e),
            },
        }
    }
}

/// The texts of the parts of an interpolation, run together.
pub open spec fn interpolate(env: Env, stack: Stack, parts: Seq<Expr>, fuel: nat) -> Result<Seq<u8>, Fault>
    decreases fuel, 0nat, parts, 0nat,
{
    if parts.len() == 0 {
        Ok(Seq::empty())
    } else {
        match eval_expr(env, stack, parts[0], fuel) {
            Err(e) => Err(e),
            Ok(v) => match render(v) {
                Err(e) => Err(e),
                Ok(u) => match interpolate(env, stack, parts.drop_first(), fuel) {
                    Ok(t) => Ok(u + t),
                    Err(e) => Err(e),
                },
            },
        }
    }
}

/// Runs statements in order: the scope they leave, and the value of the
/// first `return` met, after which nothing more runs.
pub open spec fn exec_lines(env: Env, stack: Stack, lines: Seq<Line>, fuel: nat) -> Result<(Stack, Option<Val>), Fault>
    decreases fuel, 1nat, lines, 0nat,
{
    if lines.len() == 0 {
        Ok((stack, None))
    } else {
        match exec_line(env, stack, lines[0], fuel) {
            Err(e) => Err(e),
            Ok((st, Some(v))) => Ok((st, Some(v))),
            Ok((st, None)) => exec_lines(env, st, lines.drop_first(), fuel),
        }
    }
}

pub open spec fn exec_line(env: Env, stack: Stack, line: Line, fuel: nat) -> Result<(Stack, Option<Val>), Fault>
    decreases fuel, 1nat, line, 0nat,
{
    match line {
        Line::VarDef(name, x) => match eval_expr(env, stack, x, fuel) {
            Ok(v) => Ok((define(stack, name@, v), None)),
            Err(e) => Err(e),
        },
        Line::Return(x) => match eval_expr(env, stack, x, fuel) {
            Ok(v) => Ok((stack, Some(v))),
            Err(e) => Err(e),
        },
        Line::ForLoop(name, iter, body) => match eval_expr(env, stack, iter, fuel) {
            Ok(Val::Tuple(items)) => run_loop(env, stack, name@, items, body@, fuel),
            Ok(Val::Array(items)) => run_loop(env, stack, name@, items, body@, fuel),
            Ok(_) => Err(fault(ErrorKind::NotIterable, name@, None)),
            Err(e) => Err(e),
        },
    }
}

/// Runs `body` once for each item, with `name` bound to it in the current frame.
pub open spec fn run_loop(env: Env, stack: Stack, name: Seq<u8>, items: Seq<Val>, body: Seq<Line>, fuel: nat) -> Result<(Stack, Option<Val>), Fault>
    decreases fuel, 1nat, body, items.len() + 1,
{
    if items.len() == 0 {
        Ok((stack, None))
    } else {
        match exec_lines(env, define(stack, name, items[0]), body, fuel) {
            Err(e) => Err(e),
            Ok((st, Some(v))) => Ok((st, Some(v))),
            Ok((st, None)) => run_loop(env, st, name, items.drop_first(), body, fuel),
        }
    }
}

/// The arguments a property hands to a mixin: the items of a tuple, else the value alone.
pub open spec fn call_args(e: Expr) -> Seq<Expr> {
    match e {
        Expr::Tuple(items) => items@,
        _ => seq![e],
    }
}

/// The CSS text of one property: a mixin's expansion when its name is a mixin,
/// else a `\tname: value;\n` line.
pub open spec fn gen_prop(env: Env, stack: Stack, prop: Property, fuel: nat) -> Result<Seq<u8>, Fault>
    decreases fuel, 2nat, prop, 0nat,
{
    match position_of(mixin_names(env.mixins), prop.name@) {
        Some(i) => {
            let m = env.mixins[i];
            if call_args(prop.expr).len() < m.params@.len() {
                Err(fault(ErrorKind::NotEnoughArguments, prop.name@, None))
            } else {
            match eval_seq(env, stack, call_args(prop.expr), fuel) {
                Err(e) => Err(e),
                Ok(vals) => if fuel == 0 {
                    Err(fault(ErrorKind::RecursionLimit, prop.name@, None))
                } else {
                    let frame = bind(names_view(m.params@), vals);
                    match exec_lines(env, stack.push(frame), m.lines@, (fuel - 1) as nat) {
                        Err(e) => Err(e),
                        Ok((st, _)) => gen_props(env, st, m.props@, (fuel - 1) as nat),
                    }
                },
            }
            }
        },
        None => match eval_expr(env, stack, prop.expr, fuel) {
            Err(e) => Err(e),
            Ok(v) => match render(v) {
                Err(e) => Err(e),
                Ok(t) => Ok(declaration(prop.name@, t)),
            },
        },
    }
}

/// `\tname: value;\n`
pub open spec fn declaration(name: Seq<u8>, value: Seq<u8>) -> Seq<u8> {
    seq![9u8] + name + seq![58u8, 32u8] + value + seq![59u8, 10u8]
}

/// The CSS text of properties, in order.
pub open spec fn gen_props(env: Env, stack: Stack, props: Seq<Property>, fuel: nat) -> Result<Seq<u8>, Fault>
    decreases fuel, 2nat, props, 0nat,
{
    if props.len() == 0 {
        Ok(Seq::empty())
    } else {
        match gen_prop(env, stack, props[0], fuel) {
            Err(e) => Err(e),
            Ok(u) => match gen_props(env, stack, props.drop_first(), fuel) {
                Ok(t) => Ok(u + t),
                Err(e) => Err(e),
            },
        }
    }
}

/// `sels` joined by `sep`.
pub open spec fn join(sels: Seq<Seq<u8>>, sep: Seq<u8>) -> Seq<u8>
    decreases sels.len(),
{
    if sels.len() == 0 {
        Seq::empty()
    } else if sels.len() == 1 {
        sels[0]
    } else {
        join(sels.drop_last(), sep) + sep + sels.last()
    }
}

/// `s` with each `&` replaced by `parent`.
pub open spec fn replace_amp(s: Seq<u8>, parent: Seq<u8>) -> Seq<u8>
    decreases s.len(),
{
    if s.len() == 0 {
        Seq::empty()
    } else {
        replace_amp(s.drop_last(), parent) + if s.last() == 38 { parent } else { seq![s.last()] }
    }
}

/// One nested selector under one parent: the parent put in place of `&`,
/// or before the child with a space between.
pub open spec fn nest(parent: Seq<u8>, child: Seq<u8>) -> Seq<u8> {
    if child.contains(38u8) { replace_amp(child, parent) } else { parent + seq![32u8] + child }
}

/// Every child under every parent: for each child in turn, each parent in turn.
pub open spec fn flatten(parents: Seq<Seq<u8>>, children: Seq<Seq<u8>>) -> Seq<Seq<u8>> {
    Seq::new(children.len() * parents.len(), |k: int| nest(parents[k % parents.len() as int], children[k / parents.len() as int]))
}

/// The rule for a selector list, if its declarations are not empty.
pub open spec fn rule(sels: Seq<Seq<u8>>, decls: Seq<u8>) -> Seq<u8> {
    if decls.len() == 0 {
        Seq::empty()
    } else {
        join(sels, seq![44u8, 10u8]) + seq![32u8, 123u8, 10u8] + decls + seq![125u8, 10u8, 10u8]
    }
}

/// The CSS of a selector block under the selector list `sels`: its own rule,
/// then its nested blocks, all in a new frame.
pub open spec fn gen_selector(env: Env, stack: Stack, sels: Seq<Seq<u8>>, sel: Selector, fuel: nat) -> Result<Seq<u8>, Fault>
    decreases fuel, 3nat, sel, 1nat,
{
    match exec_lines(env, stack.push(Seq::empty()), sel.lines@, fuel) {
        Err(e) => Err(e),
        Ok((st, _)) => match gen_props(env, st, sel.props@, fuel) {
            Err(e) => Err(e),
            Ok(decls) => match gen_nested(env, st, sels, sel.nested@, fuel) {
                Err(e) => Err(e),
                Ok(inner) => Ok(rule(sels, decls) + inner),
            },
        },
    }
}

pub open spec fn gen_nested(env: Env, stack: Stack, sels: Seq<Seq<u8>>, children: Seq<Selector>, fuel: nat) -> Result<Seq<u8>, Fault>
    decreases fuel, 3nat, children, 0nat,
{
    if children.len() == 0 {
        Ok(Seq::empty())
    } else {
        let c = children[0];
        match gen_selector(env, stack, flatten(sels, names_view(c.sels@)), c, fuel) {
            Err(e) => Err(e),
            Ok(u) => match gen_nested(env, stack, sels, children.drop_first(), fuel) {
                Ok(t) => Ok(u + t),
                Err(e) => Err(e),
            },
        }
    }
}

/// The state between top-level nodes: declarations, the outermost scope, and the CSS so far.
pub struct GenState {
    pub env: Env,
    pub stack: Stack,
    pub css: Seq<u8>,
}

#[verifier::opaque]
pub open spec fn gen_node(s: GenState, node: Node) -> Result<GenState, Fault> {
    match node {
        Node::Comment(c) => Ok(GenState { css: s.css + c@ + seq![10u8, 10u8], ..s }),
        Node::Line(l) => match exec_line(s.env, s.stack, l, MAX_DEPTH as nat) {
            Ok((st, _)) => Ok(GenState { stack: st, ..s }),
            Err(e) => Err(e),
        },
        Node::Selector(sel) => match gen_selector(s.env, s.stack, names_view(sel.sels@), sel, MAX_DEPTH as nat) {
            Ok(t) => Ok(GenState { css: s.css + t, ..s }),
            Err(e) => Err(e),
        },
        Node::Mixin(m) => Ok(GenState { env: Env { mixins: s.env.mixins.push(m), ..s.env }, ..s }),
        Node::Function(f) => Ok(GenState { env: Env { functions: s.env.functions.push(f), ..s.env }, ..s }),
        Node::EOI => Ok(s),
    }
}

pub open spec fn gen_nodes(s: GenState, nodes: Seq<Node>) -> Result<GenState, Fault>
    decreases nodes.len(),
{
    if nodes.len() == 0 {
        Ok(s)
    } else {
        match gen_node(s, nodes[0]) {
            Ok(t) => gen_nodes(t, nodes.drop_first()),
            Err(e) => Err(e),
        }
    }
}

pub open spec fn initial_state() -> GenState {
    GenState { env: Env { mixins: Seq::empty(), functions: Seq::empty() }, stack: seq![Seq::empty()], css: Seq::empty() }
}

/// The CSS of a whole stylesheet.
pub open spec fn generate_css(nodes: Seq<Node>) -> Result<Seq<u8>, Fault> {
    match gen_nodes(initial_state(), nodes) {
        Ok(s) => Ok(s.css),
        Err(e) => Err(e),
    }
}

} // verus!
