//! Walks the syntax tree and writes CSS, proved to compute what `semantics` describes.
use vstd::prelude::*;
use crate::error::{Error, ErrorKind};
use crate::nodes::{Expr, Function, Line, Mixin, Node, Op, Property, Selector};
use crate::num::{push_num, UNIT};
use crate::semantics::{
    access, apply_op, bind, call_args, concat, count_of, declaration, define, eval_expr, eval_seq,
    exec_line, exec_lines, field_of, flatten, frame_names, function_names, gen_nested, gen_node,
    gen_nodes, gen_prop, gen_props, gen_selector, generate_css, index_into, initial_state,
    interpolate, join, lemma_first_match, lemma_position_of, lookup, mixin_names, nest, op_text, position_of,
    range_vals, render, render_join, render_sep, replace_amp, rule, run_loop, Env, Fault, Frame, GenState,
    Stack, MAX_DEPTH,
};
use crate::value::{
    copy_bytes, copy_names, copy_value, copy_values, lemma_vals_of, lemma_vals_of_push, names_view,
    val_of, vals_of, Val, Value, Variable,
};

verus! {

impl View for Error {
    type V = Fault;

    open spec fn view(&self) -> Fault {
        Fault { kind: self.kind, detail: self.detail@, at: self.at }
    }
}

pub open spec fn frame_view(f: Seq<Variable>) -> Frame {
    f.map_values(|v: Variable| (v.name@, val_of(v.value)))
}

pub open spec fn stack_view(s: Seq<Vec<Variable>>) -> Stack {
    s.map_values(|f: Vec<Variable>| frame_view(f@))
}

pub open spec fn val_res(r: Result<Value, Error>) -> Result<Val, Fault> {
    match r {
        Ok(v) => Ok(val_of(v)),
        Err(e) => Err(e@),
    }
}

pub open spec fn vals_res(r: Result<Vec<Value>, Error>) -> Result<Seq<Val>, Fault> {
    match r {
        Ok(v) => Ok(vals_of(v@)),
        Err(e) => Err(e@),
    }
}

pub open spec fn text_res(r: Result<Vec<u8>, Error>) -> Result<Seq<u8>, Fault> {
    match r {
        Ok(t) => Ok(t@),
        Err(e) => Err(e@),
    }
}

pub fn bytes_eq(a: &Vec<u8>, b: &Vec<u8>) -> (r: bool)
    ensures
        r == (a@ == b@),
{
    if a.len() != b.len() {
        return false;
    }
    let mut i: usize = 0;
    while i < a.len()
        invariant
            a@.len() == b@.len(),
            i <= a@.len(),
            forall|k: int| 0 <= k < i ==> a@[k] == b@[k],
        decreases a@.len() - i,
    {
        if a[i] != b[i] {
            return false;
        }
        i += 1;
    }
    assert(a@ =~= b@);
    true
}

/// Where `name` first stands among `names`.
pub fn find_name(names: &Vec<Vec<u8>>, name: &Vec<u8>) -> (r: Option<usize>)
    ensures
        match r {
            Some(i) => i < names@.len() && position_of(names_view(names@), name@) == Some(i as int),
            None => position_of(names_view(names@), name@) is None,
        },
{
    let ghost nv = names_view(names@);
    let mut i: usize = 0;
    while i < names.len()
        invariant
            i <= names@.len(),
            nv == names_view(names@),
            forall|k: int| 0 <= k < i ==> nv[k] != name@,
        decreases names@.len() - i,
    {
        if bytes_eq(&names[i], name) {
            proof { lemma_first_match(nv, name@, i as int); }
            return Some(i);
        }
        i += 1;
    }
    proof { lemma_position_of(nv, name@); }
    None
}

fn find_in_frame(frame: &Vec<Variable>, name: &Vec<u8>) -> (r: Option<usize>)
    ensures
        match r {
            Some(i) => i < frame@.len() && position_of(frame_names(frame_view(frame@)), name@) == Some(i as int),
            None => position_of(frame_names(frame_view(frame@)), name@) is None,
        },
{
    let ghost nv = frame_names(frame_view(frame@));
    let mut i: usize = 0;
    while i < frame.len()
        invariant
            i <= frame@.len(),
            nv == frame_names(frame_view(frame@)),
            forall|k: int| 0 <= k < i ==> nv[k] != name@,
        decreases frame@.len() - i,
    {
        if bytes_eq(&frame[i].name, name) {
            proof { lemma_first_match(nv, name@, i as int); }
            return Some(i);
        }
        i += 1;
    }
    proof { lemma_position_of(nv, name@); }
    None
}

/// The value bound to `name`, innermost frame first.
pub fn find_var(stack: &Vec<Vec<Variable>>, name: &Vec<u8>) -> (r: Option<Value>)
    ensures
        match r {
            Some(v) => lookup(stack_view(stack@), name@) == Some(val_of(v)),
            None => lookup(stack_view(stack@), name@) is None,
        },
{
    let mut k: usize = stack.len();
    assert(stack@.subrange(0, k as int) =~= stack@);
    while k > 0
        invariant
            k <= stack@.len(),
            lookup(stack_view(stack@), name@) == lookup(stack_view(stack@.subrange(0, k as int)), name@),
        decreases k,
    {
        proof {
            let sub = stack@.subrange(0, k as int);
            assert(stack_view(sub).drop_last() =~= stack_view(stack@.subrange(0, k - 1)));
            assert(stack_view(sub).last() == frame_view(stack@[k - 1]@));
        }
        match find_in_frame(&stack[k - 1], name) {
            Some(i) => {
                let r = copy_value(&stack[k - 1][i].value);
                proof {
                    assert(frame_view(stack@[k - 1]@)[i as int].1 == val_of(stack@[k - 1]@[i as int].value));
                }
                return Some(r);
            },
            None => {},
        }
        k -= 1;
    }
    None
}

/// Binds `name` in the innermost frame, replacing its binding there.
pub fn define_var(stack: &mut Vec<Vec<Variable>>, name: Vec<u8>, v: Value)
    ensures
        stack_view(final(stack)@) == define(stack_view(old(stack)@), name@, val_of(v)),
        old(stack)@.len() > 0 ==> final(stack)@.len() == old(stack)@.len(),
        old(stack)@.len() > 0 ==> final(stack)@.subrange(0, old(stack)@.len() - 1)
            == old(stack)@.subrange(0, old(stack)@.len() - 1),
{
    let ghost name_v = name@;
    let ghost val_v = val_of(v);
    match stack.pop() {
        None => {
            let mut frame: Vec<Variable> = Vec::new();
            frame.push(Variable { name, value: v });
            stack.push(frame);
            proof {
                assert(frame_view(frame@) =~= seq![(name_v, val_v)]);
                assert(stack_view(stack@) =~= seq![seq![(name_v, val_v)]]);
            }
        },
        Some(mut frame) => {
            let ghost top = frame_view(frame@);
            match find_in_frame(&frame, &name) {
                Some(i) => {
                    frame.set(i, Variable { name, value: v });
                    assert(frame_view(frame@) =~= top.update(i as int, (name_v, val_v)));
                },
                None => {
                    frame.push(Variable { name, value: v });
                    assert(frame_view(frame@) =~= top.push((name_v, val_v)));
                },
            }
            stack.push(frame);
            proof {
                assert(stack_view(old(stack)@).last() == top);
                assert(stack_view(old(stack)@).drop_last() =~= stack_view(old(stack)@.drop_last()));
                assert(stack_view(stack@) =~= stack_view(old(stack)@.drop_last()).push(frame_view(frame@)));
                assert(stack@.subrange(0, old(stack)@.len() - 1) =~= old(stack)@.subrange(0, old(stack)@.len() - 1));
            }
        },
    }
}

/// A frame binding each parameter to the argument in its place.
fn bind_args(params: &Vec<Vec<u8>>, args: &Vec<Value>) -> (r: Vec<Variable>)
    requires
        args@.len() >= params@.len(),
    ensures
        frame_view(r@) == bind(names_view(params@), vals_of(args@)),
{
    proof { lemma_vals_of(args@); }
    let mut r: Vec<Variable> = Vec::new();
    let mut i: usize = 0;
    while i < params.len()
        invariant
            i <= params@.len() <= args@.len(),
            vals_of(args@).len() == args@.len(),
            forall|k: int| 0 <= k < args@.len() ==> #[trigger] vals_of(args@)[k] == val_of(args@[k]),
            r@.len() == i,
            forall|k: int| 0 <= k < i ==> (#[trigger] r@[k]).name@ == params@[k]@,
            forall|k: int| 0 <= k < i ==> val_of((#[trigger] r@[k]).value) == val_of(args@[k]),
        decreases params@.len() - i,
    {
        r.push(Variable { name: copy_bytes(&params[i]), value: copy_value(&args[i]) });
        i += 1;
    }
    assert(frame_view(r@) =~= bind(names_view(params@), vals_of(args@)));
    r
}

} // verus!

verus! {

proof fn lemma_vals_of_add(s: Seq<Value>, t: Seq<Value>)
    ensures
        vals_of(s + t) == vals_of(s) + vals_of(t),
{
    lemma_vals_of(s);
    lemma_vals_of(t);
    lemma_vals_of(s + t);
    assert(vals_of(s + t) =~= vals_of(s) + vals_of(t));
}

/// Writes the CSS text of a value.
pub fn render_value(v: &Value, out: &mut Vec<u8>) -> (r: Result<(), Error>)
    ensures
        match render(val_of(*v)) {
            Ok(t) => r is Ok && final(out)@ == old(out)@ + t,
            Err(f) => r matches Err(e) && e@ == f,
        },
    decreases v,
{
    match v {
        Value::Keyword(s) => {
            push_all(out, s);
            Ok(())
        },
        Value::Hash(s) => {
            out.push(35);
            push_all(out, s);
            assert(out@ =~= old(out)@ + (seq![35u8] + s@));
            Ok(())
        },
        Value::Number(n) => {
            push_num(*n, out);
            Ok(())
        },
        Value::Str(s) => {
            out.push(34);
            push_all(out, s);
            out.push(34);
            assert(out@ =~= old(out)@ + (seq![34u8] + s@ + seq![34u8]));
            Ok(())
        },
        Value::Dimension(n, u) => {
            push_num(*n, out);
            push_all(out, u);
            assert(out@ =~= old(out)@ + (crate::num::num_text(*n as int) + u@));
            Ok(())
        },
        Value::Tuple(items) => render_values(items, false, out),
        Value::Array(items) => render_values(items, true, out),
        Value::Object(_, _) => Err(Error::bare(ErrorKind::ObjectInCss, None)),
    }
}

/// Item separator: `, ` between array items, a space between tuple items.
pub open spec fn separator(comma: bool) -> Seq<u8> {
    if comma { seq![44u8, 32u8] } else { seq![32u8] }
}

fn render_values(items: &Vec<Value>, comma: bool, out: &mut Vec<u8>) -> (r: Result<(), Error>)
    ensures
        match render_join(vals_of(items@), separator(comma)) {
            Ok(t) => r is Ok && final(out)@ == old(out)@ + t,
            Err(f) => r matches Err(e) && e@ == f,
        },
    decreases items,
{
    let ghost all = vals_of(items@);
    let ghost sep = separator(comma);
    proof { lemma_vals_of(items@); }
    let mut i: usize = 0;
    assert(all.subrange(0, all.len() as int) =~= all);
    assert(out@.subrange(old(out)@.len() as int, out@.len() as int) =~= Seq::<u8>::empty());
    assert(out@.subrange(0, old(out)@.len() as int) =~= old(out)@);
    proof {
        match render_sep(all, sep, true) {
            Ok(t) => { assert(Seq::<u8>::empty() + t =~= t); },
            Err(_) => {},
        }
    }
    while i < items.len()
        invariant
            i <= items@.len(),
            all == vals_of(items@),
            all.len() == items@.len(),
            forall|k: int| 0 <= k < items@.len() ==> #[trigger] all[k] == val_of(items@[k]),
            sep == separator(comma),
            render_join(all, sep) == match render_sep(all.subrange(i as int, all.len() as int), sep, i == 0) {
                Ok(t) => Ok(out@.subrange(old(out)@.len() as int, out@.len() as int) + t),
                Err(e) => Err(e),
            },
            out@.subrange(0, old(out)@.len() as int) == old(out)@,
            old(out)@.len() <= out@.len(),
        decreases items@.len() - i,
    {
        let ghost before = out@;
        let ghost rest = all.subrange(i as int, all.len() as int);
        assert(rest[0] == val_of(items@[i as int]));
        assert(rest.drop_first() =~= all.subrange(i + 1, all.len() as int));
        if i > 0 {
            if comma {
                out.push(44);
            }
            out.push(32);
        }
        let ghost mid = out@;
        match render_value(&items[i], out) {
            Ok(()) => {},
            Err(e) => {
                return Err(e);
            },
        }
        proof {
            let written = before.subrange(old(out)@.len() as int, before.len() as int);
            let u = out@.subrange(mid.len() as int, out@.len() as int);
            assert(out@ =~= mid + u);
            match render(val_of(items@[i as int])) {
                Ok(t) => { assert(u =~= t); },
                Err(_) => {},
            }
            assert(render(rest[0]) == Ok::<Seq<u8>, Fault>(u));
            let prefix = if i == 0 { u } else { sep + u };
            match render_sep(rest.drop_first(), sep, false) {
                Ok(t2) => {
                    assert(written + (prefix + t2) =~= (written + prefix) + t2);
                },
                Err(_) => {},
            }
            if i > 0 {
                assert(mid =~= before + sep);
                assert(out@.subrange(old(out)@.len() as int, out@.len() as int) =~= written + (sep + u));
            } else {
                assert(out@.subrange(old(out)@.len() as int, out@.len() as int) =~= written + u);
            }
            assert(out@.subrange(0, old(out)@.len() as int) =~= old(out)@);
        }
        i += 1;
    }
    proof {
        assert(all.subrange(i as int, all.len() as int) =~= Seq::<Val>::empty());
        assert(out@ =~= old(out)@ + out@.subrange(old(out)@.len() as int, out@.len() as int));
    }
    Ok(())
}

pub fn push_all(out: &mut Vec<u8>, s: &Vec<u8>)
    ensures
        final(out)@ == old(out)@ + s@,
{
    push_slice(out, s.as_slice());
}

pub fn push_slice(out: &mut Vec<u8>, s: &[u8])
    ensures
        final(out)@ == old(out)@ + s@,
{
    let mut i: usize = 0;
    while i < s.len()
        invariant
            i <= s@.len(),
            out@ == old(out)@ + s@.subrange(0, i as int),
        decreases s@.len() - i,
    {
        out.push(s[i]);
        i += 1;
        assert(out@ =~= old(out)@ + s@.subrange(0, i as int));
    }
    assert(s@.subrange(0, i as int) =~= s@);
}

} // verus!

verus! {

fn op_bytes(op: Op) -> (r: Vec<u8>)
    ensures
        r@ == op_text(op),
{
    let mut r: Vec<u8> = Vec::new();
    match op {
        Op::Add => { r.push(43); },
        Op::Sub => { r.push(45); },
        Op::Mul => { r.push(42); },
        Op::Div => { r.push(47); },
        Op::Range => { r.push(46); r.push(46); },
        Op::RangeInclusive => { r.push(46); r.push(46); r.push(61); },
        Op::Concat => { r.push(43); r.push(43); },
    }
    assert(r@ =~= op_text(op));
    r
}

fn invalid(op: Op) -> (e: Error)
    ensures
        e@ == crate::semantics::fault(ErrorKind::InvalidOperands, op_text(op), None),
{
    Error::new(ErrorKind::InvalidOperands, op_bytes(op), None)
}

fn count(n: i64) -> (r: u64)
    ensures
        r == count_of(n as int),
{
    if n < 0 {
        0
    } else if n / 1000000 > 0xffff_ffff {
        0xffff_ffff
    } else {
        (n / 1000000) as u64
    }
}

/// The whole numbers from `lo` up to, not including, `hi`.
fn range_values(lo: u64, hi: u64) -> (r: Vec<Value>)
    requires
        hi <= 0x1_0000_0000,
    ensures
        vals_of(r@) == range_vals(lo as int, hi as int),
{
    let mut r: Vec<Value> = Vec::new();
    let mut k: u64 = lo;
    if hi <= lo {
        proof { lemma_vals_of(r@); }
        assert(vals_of(r@) =~= range_vals(lo as int, hi as int));
        return r;
    }
    while k < hi
        invariant
            lo <= k <= hi <= 0x1_0000_0000,
            vals_of(r@) == range_vals(lo as int, k as int),
        decreases hi - k,
    {
        let v = Value::Number((k * 1000000) as i64);
        proof {
            lemma_vals_of_push(r@, v);
            assert(range_vals(lo as int, k as int).push(val_of(v)) =~= range_vals(lo as int, k + 1));
        }
        r.push(v);
        k += 1;
    }
    r
}

fn arith_values(op: Op, x: i64, y: i64) -> (r: Result<Value, Error>)
    requires
        op == Op::Add || op == Op::Sub || op == Op::Mul || op == Op::Div,
    ensures
        val_res(r) == crate::semantics::arith(op, x as int, y as int),
{
    let o = match op {
        Op::Add => crate::num::add(x, y),
        Op::Sub => crate::num::sub(x, y),
        Op::Mul => crate::num::mul(x, y),
        _ => crate::num::div(x, y),
    };
    match o {
        Some(v) => Ok(Value::Number(v)),
        None => {
            if op == Op::Div && y == 0 {
                Err(Error::new(ErrorKind::DivisionByZero, op_bytes(op), None))
            } else {
                Err(Error::new(ErrorKind::NumberOutOfRange, op_bytes(op), None))
            }
        },
    }
}

fn single(v: Value) -> (r: Vec<Value>)
    ensures
        vals_of(r@) == seq![val_of(v)],
{
    let mut r: Vec<Value> = Vec::new();
    proof { lemma_vals_of_push(r@, v); }
    r.push(v);
    assert(vals_of(Seq::<Value>::empty()) =~= Seq::<Val>::empty());
    r
}

/// `++` on two values.
fn concat_values(a: Value, b: Value) -> (r: Result<Value, Error>)
    ensures
        val_res(r) == concat(val_of(a), val_of(b)),
{
    let ghost va = val_of(a);
    let ghost vb = val_of(b);
    match a {
        Value::Array(x) => {
            match b {
                Value::Array(y) => {
                    let mut x = x;
                    let mut y = y;
                    proof { lemma_vals_of_add(x@, y@); }
                    x.append(&mut y);
                    return Ok(Value::Array(x));
                },
                _ => {
                    let mut x = x;
                    proof { lemma_vals_of_push(x@, b); }
                    x.push(b);
                    return Ok(Value::Array(x));
                },
            }
        },
        _ => {},
    }
    match b {
        Value::Array(y) => {
            let mut s = single(a);
            let mut y = y;
            proof { lemma_vals_of_add(s@, y@); }
            s.append(&mut y);
            return Ok(Value::Array(s));
        },
        _ => {},
    }
    match a {
        Value::Tuple(x) => {
            match b {
                Value::Tuple(y) => {
                    let mut x = x;
                    let mut y = y;
                    proof { lemma_vals_of_add(x@, y@); }
                    x.append(&mut y);
                    return Ok(Value::Tuple(x));
                },
                _ => {
                    let mut x = x;
                    proof { lemma_vals_of_push(x@, b); }
                    x.push(b);
                    return Ok(Value::Tuple(x));
                },
            }
        },
        _ => {},
    }
    match b {
        Value::Tuple(y) => {
            let mut s = single(a);
            let mut y = y;
            proof { lemma_vals_of_add(s@, y@); }
            s.append(&mut y);
            return Ok(Value::Tuple(s));
        },
        _ => {},
    }
    match (a, b) {
        (Value::Str(x), Value::Str(y)) => {
            let mut x = x;
            let mut y = y;
            x.append(&mut y);
            Ok(Value::Str(x))
        },
        _ => Err(invalid(Op::Concat)),
    }
}

/// A binary operation on two values.
pub fn apply(op: Op, a: Value, b: Value) -> (r: Result<Value, Error>)
    ensures
        val_res(r) == apply_op(op, val_of(a), val_of(b)),
{
    match op {
        Op::Concat => concat_values(a, b),
        Op::Range | Op::RangeInclusive => match (a, b) {
            (Value::Number(x), Value::Number(y)) => {
                let lo = count(x);
                let hi = if op == Op::Range { count(y) } else { count(y) + 1 };
                Ok(Value::Array(range_values(lo, hi)))
            },
            _ => Err(invalid(op)),
        },
        _ => match (a, b) {
            (Value::Number(x), Value::Number(y)) => arith_values(op, x, y),
            _ => Err(invalid(op)),
        },
    }
}

/// Field `f` of an object.
fn field_value(v: Value, f: &Vec<u8>) -> (r: Result<Value, Error>)
    ensures
        val_res(r) == field_of(val_of(v), f@),
{
    match v {
        Value::Object(names, vals) => {
            let mut vals = vals;
            match find_name(&names, f) {
                Some(i) => {
                    if i < vals.len() {
                        proof { lemma_vals_of(vals@); }
                        let w = vals.remove(i);
                        Ok(w)
                    } else {
                        proof { lemma_vals_of(vals@); }
                        Err(Error::new(ErrorKind::FieldNotFound, copy_bytes(f), None))
                    }
                },
                None => Err(Error::new(ErrorKind::FieldNotFound, copy_bytes(f), None)),
            }
        },
        _ => Err(Error::new(ErrorKind::NotAnObject, copy_bytes(f), None)),
    }
}

/// Follows a chain of field names.
fn access_value(v: Value, fields: &Vec<Vec<u8>>) -> (r: Result<Value, Error>)
    ensures
        val_res(r) == access(val_of(v), names_view(fields@)),
{
    let ghost all = names_view(fields@);
    let mut cur = v;
    let mut i: usize = 0;
    assert(all.subrange(0, all.len() as int) =~= all);
    while i < fields.len()
        invariant
            i <= fields@.len(),
            all == names_view(fields@),
            access(val_of(v), all) == access(val_of(cur), all.subrange(i as int, all.len() as int)),
        decreases fields@.len() - i,
    {
        proof {
            let rest = all.subrange(i as int, all.len() as int);
            assert(rest[0] == fields@[i as int]@);
            assert(rest.drop_first() =~= all.subrange(i + 1, all.len() as int));
        }
        match field_value(cur, &fields[i]) {
            Ok(w) => {
                cur = w;
            },
            Err(e) => {
                return Err(e);
            },
        }
        i += 1;
    }
    assert(all.subrange(i as int, all.len() as int) =~= Seq::<Seq<u8>>::empty());
    Ok(cur)
}

/// Item `idx` of an array.
fn index_value(arr: Value, idx: Value) -> (r: Result<Value, Error>)
    ensures
        val_res(r) == index_into(val_of(arr), val_of(idx)),
{
    match arr {
        Value::Array(items) => match idx {
            Value::Number(n) => {
                let k: u64 = if n < 0 { 0 } else { (n / 1000000) as u64 };
                proof { lemma_vals_of(items@); }
                if k < items.len() as u64 {
                    let mut items = items;
                    Ok(items.remove(k as usize))
                } else {
                    Err(Error::bare(ErrorKind::IndexOutOfRange, None))
                }
            },
            _ => Err(Error::bare(ErrorKind::IndexNotNumber, None)),
        },
        _ => Err(Error::bare(ErrorKind::NotAnArray, None)),
    }
}

} // verus!

verus! {

/// The mixins and functions declared so far, in declaration order.
pub struct Decls {
    pub mixins: Vec<Mixin>,
    pub functions: Vec<Function>,
}

impl Decls {
    pub open spec fn env(&self) -> Env {
        Env { mixins: self.mixins@, functions: self.functions@ }
    }
}

pub open spec fn opt_val(o: Option<Value>) -> Option<Val> {
    match o {
        Some(v) => Some(val_of(v)),
        None => None,
    }
}

/// `a` and `b` have the same frames but possibly the innermost.
pub open spec fn same_below(a: Seq<Vec<Variable>>, b: Seq<Vec<Variable>>) -> bool {
    &&& a.len() == b.len()
    &&& a.len() > 0
    &&& a.subrange(0, a.len() - 1) == b.subrange(0, b.len() - 1)
}

/// The first declared mixin called `name`.
fn find_mixin(mixins: &Vec<Mixin>, name: &Vec<u8>) -> (r: Option<usize>)
    ensures
        match r {
            Some(i) => i < mixins@.len() && position_of(mixin_names(mixins@), name@) == Some(i as int),
            None => position_of(mixin_names(mixins@), name@) is None,
        },
{
    let ghost nv = mixin_names(mixins@);
    let mut i: usize = 0;
    while i < mixins.len()
        invariant
            i <= mixins@.len(),
            nv == mixin_names(mixins@),
            forall|k: int| 0 <= k < i ==> nv[k] != name@,
        decreases mixins@.len() - i,
    {
        if bytes_eq(&mixins[i].name, name) {
            proof { lemma_first_match(nv, name@, i as int); }
            return Some(i);
        }
        i += 1;
    }
    proof { lemma_position_of(nv, name@); }
    None
}

/// The first declared function called `name`.
fn find_function(functions: &Vec<Function>, name: &Vec<u8>) -> (r: Option<usize>)
    ensures
        match r {
            Some(i) => i < functions@.len() && position_of(function_names(functions@), name@) == Some(i as int),
            None => position_of(function_names(functions@), name@) is None,
        },
{
    let ghost nv = function_names(functions@);
    let mut i: usize = 0;
    while i < functions.len()
        invariant
            i <= functions@.len(),
            nv == function_names(functions@),
            forall|k: int| 0 <= k < i ==> nv[k] != name@,
        decreases functions@.len() - i,
    {
        if bytes_eq(&functions[i].name, name) {
            proof { lemma_first_match(nv, name@, i as int); }
            return Some(i);
        }
        i += 1;
    }
    proof { lemma_position_of(nv, name@); }
    None
}

/// The value of an expression.
pub fn eval(d: &Decls, stack: &mut Vec<Vec<Variable>>, e: &Expr, fuel: u32) -> (r: Result<Value, Error>)
    ensures
        val_res(r) == eval_expr(d.env(), stack_view(old(stack)@), *e, fuel as nat),
        r is Ok ==> final(stack)@ == old(stack)@,
    decreases fuel, 0nat, e, 0nat,
{
    match e {
        Expr::Keyword(s) => Ok(Value::Keyword(copy_bytes(s))),
        Expr::Hash(s) => Ok(Value::Hash(copy_bytes(s))),
        Expr::Number(n) => Ok(Value::Number(*n)),
        Expr::Str(s) => Ok(Value::Str(copy_bytes(s))),
        Expr::Dimension(n, u) => Ok(Value::Dimension(*n, copy_bytes(u))),
        Expr::Variable(name, at) => match find_var(stack, name) {
            Some(v) => Ok(v),
            None => Err(Error::new(ErrorKind::UndefinedVariable, copy_bytes(name), Some(*at))),
        },
        Expr::Interpolation(parts) => {
            let mut out: Vec<u8> = Vec::new();
            match eval_interpolation(d, stack, parts, fuel, &mut out) {
                Ok(()) => {
                    assert(out@ =~= Seq::<u8>::empty() + out@);
                    Ok(Value::Keyword(out))
                },
                Err(e) => Err(e),
            }
        },
        Expr::Tuple(items) => match eval_all(d, stack, items, fuel) {
            Ok(vs) => Ok(Value::Tuple(vs)),
            Err(e) => Err(e),
        },
        Expr::Array(items) => match eval_all(d, stack, items, fuel) {
            Ok(vs) => Ok(Value::Array(vs)),
            Err(e) => Err(e),
        },
        Expr::Object(names, items) => match eval_all(d, stack, items, fuel) {
            Ok(vs) => Ok(Value::Object(copy_names(names), vs)),
            Err(e) => Err(e),
        },
        Expr::ObjectAccessor(obj, fields) => match eval(d, stack, obj, fuel) {
            Ok(v) => access_value(v, fields),
            Err(e) => Err(e),
        },
        Expr::ArrayAccessor(arr, idx) => match eval(d, stack, arr, fuel) {
            Ok(a) => match eval(d, stack, idx, fuel) {
                Ok(i) => index_value(a, i),
                Err(e) => Err(e),
            },
            Err(e) => Err(e),
        },
        Expr::Operation(op, a, b) => match eval(d, stack, a, fuel) {
            Ok(x) => match eval(d, stack, b, fuel) {
                Ok(y) => apply(*op, x, y),
                Err(e) => Err(e),
            },
            Err(e) => Err(e),
        },
        Expr::FunctionCall(name, args, at) => call_function(d, stack, name, args, *at, fuel),
    }
}

pub fn call_function(d: &Decls, stack: &mut Vec<Vec<Variable>>, name: &Vec<u8>, args: &Vec<Expr>, at: (usize, usize), fuel: u32) -> (r: Result<Value, Error>)
    ensures
        val_res(r) == eval_expr(d.env(), stack_view(old(stack)@), Expr::FunctionCall(*name, *args, at), fuel as nat),
        r is Ok ==> final(stack)@ == old(stack)@,
    decreases fuel, 0nat, args, 1nat,
{
    let i = match find_function(&d.functions, name) {
        Some(i) => i,
        None => {
            return Err(Error::new(ErrorKind::UndefinedFunction, copy_bytes(name), Some(at)));
        },
    };
    let f = &d.functions[i];
    if args.len() < f.params.len() {
        return Err(Error::new(ErrorKind::NotEnoughArguments, copy_bytes(name), Some(at)));
    }
    let vals = match eval_all(d, stack, args, fuel) {
        Ok(vs) => vs,
        Err(e) => {
            return Err(e);
        },
    };
    proof {
        lemma_vals_of(vals@);
        crate::semantics::lemma_eval_seq_len(d.env(), stack_view(old(stack)@), args@, fuel as nat);
    }
    if fuel == 0 {
        return Err(Error::new(ErrorKind::RecursionLimit, copy_bytes(name), Some(at)));
    }
    let frame = bind_args(&f.params, &vals);
    let ghost before = stack@;
    stack.push(frame);
    proof {
        assert(stack_view(stack@) =~= stack_view(before).push(frame_view(frame@)));
    }
    let ret = match run_body(d, stack, &f.lines, fuel - 1) {
        Ok(ret) => ret,
        Err(e) => {
            return Err(e);
        },
    };
    stack.pop();
    proof {
        assert(stack@ =~= before);
    }
    match ret {
        Some(v) => Ok(v),
        None => Err(Error::new(ErrorKind::MissingReturn, copy_bytes(name), Some(at))),
    }
}

/// The values of expressions, from left to right.
pub fn eval_all(d: &Decls, stack: &mut Vec<Vec<Variable>>, es: &Vec<Expr>, fuel: u32) -> (r: Result<Vec<Value>, Error>)
    ensures
        vals_res(r) == eval_seq(d.env(), stack_view(old(stack)@), es@, fuel as nat),
        r is Ok ==> final(stack)@ == old(stack)@,
    decreases fuel, 0nat, es, 0nat,
{
    let ghost env = d.env();
    let ghost st = stack_view(stack@);
    let mut out: Vec<Value> = Vec::new();
    let mut i: usize = 0;
    assert(es@.subrange(0, es@.len() as int) =~= es@);
    proof {
        match eval_seq(env, st, es@, fuel as nat) {
            Ok(vs) => { assert(vals_of(out@) + vs =~= vs); },
            Err(_) => {},
        }
    }
    while i < es.len()
        invariant
            i <= es@.len(),
            env == d.env(),
            stack@ == old(stack)@,
            st == stack_view(stack@),
            eval_seq(env, st, es@, fuel as nat) == match eval_seq(env, st, es@.subrange(i as int, es@.len() as int), fuel as nat) {
                Ok(vs) => Ok(vals_of(out@) + vs),
                Err(e) => Err(e),
            },
        decreases es@.len() - i,
    {
        let ghost rest = es@.subrange(i as int, es@.len() as int);
        assert(rest[0] == es@[i as int]);
        assert(rest.drop_first() =~= es@.subrange(i + 1, es@.len() as int));
        let v = match eval(d, stack, &es[i], fuel) {
            Ok(v) => v,
            Err(e) => {
                return Err(e);
            },
        };
        proof {
            lemma_vals_of_push(out@, v);
            match eval_seq(env, st, rest.drop_first(), fuel as nat) {
                Ok(vs) => {
                    assert(vals_of(out@) + (seq![val_of(v)] + vs) =~= vals_of(out@).push(val_of(v)) + vs);
                },
                Err(_) => {},
            }
        }
        out.push(v);
        i += 1;
    }
    assert(es@.subrange(i as int, es@.len() as int) =~= Seq::<Expr>::empty());
    assert(vals_of(out@) + Seq::<Val>::empty() =~= vals_of(out@));
    Ok(out)
}

/// Appends the texts of the parts of an interpolation.
pub fn eval_interpolation(d: &Decls, stack: &mut Vec<Vec<Variable>>, parts: &Vec<Expr>, fuel: u32, out: &mut Vec<u8>) -> (r: Result<(), Error>)
    ensures
        match interpolate(d.env(), stack_view(old(stack)@), parts@, fuel as nat) {
            Ok(t) => r is Ok && final(out)@ == old(out)@ + t && final(stack)@ == old(stack)@,
            Err(f) => r matches Err(e) && e@ == f,
        },
    decreases fuel, 0nat, parts, 0nat,
{
    let ghost env = d.env();
    let ghost st = stack_view(stack@);
    let mut i: usize = 0;
    assert(parts@.subrange(0, parts@.len() as int) =~= parts@);
    proof {
        match interpolate(env, st, parts@, fuel as nat) {
            Ok(t) => { assert(Seq::<u8>::empty() + t =~= t); },
            Err(_) => {},
        }
        assert(out@.subrange(old(out)@.len() as int, out@.len() as int) =~= Seq::<u8>::empty());
        assert(out@.subrange(0, old(out)@.len() as int) =~= old(out)@);
    }
    while i < parts.len()
        invariant
            i <= parts@.len(),
            env == d.env(),
            stack@ == old(stack)@,
            st == stack_view(stack@),
            old(out)@.len() <= out@.len(),
            out@.subrange(0, old(out)@.len() as int) == old(out)@,
            interpolate(env, st, parts@, fuel as nat) == match interpolate(env, st, parts@.subrange(i as int, parts@.len() as int), fuel as nat) {
                Ok(t) => Ok(out@.subrange(old(out)@.len() as int, out@.len() as int) + t),
                Err(e) => Err(e),
            },
        decreases parts@.len() - i,
    {
        let ghost rest = parts@.subrange(i as int, parts@.len() as int);
        let ghost before = out@;
        assert(rest[0] == parts@[i as int]);
        assert(rest.drop_first() =~= parts@.subrange(i + 1, parts@.len() as int));
        let v = match eval(d, stack, &parts[i], fuel) {
            Ok(v) => v,
            Err(e) => {
                return Err(e);
            },
        };
        match render_value(&v, out) {
            Ok(()) => {},
            Err(e) => {
                return Err(e);
            },
        }
        proof {
            let written = before.subrange(old(out)@.len() as int, before.len() as int);
            let u = out@.subrange(before.len() as int, out@.len() as int);
            assert(out@ =~= before + u);
            match render(val_of(v)) {
                Ok(t) => { assert(u =~= t); },
                Err(_) => {},
            }
            match interpolate(env, st, rest.drop_first(), fuel as nat) {
                Ok(t2) => {
                    assert(written + (u + t2) =~= (written + u) + t2);
                },
                Err(_) => {},
            }
            assert(out@.subrange(old(out)@.len() as int, out@.len() as int) =~= written + u);
            assert(out@.subrange(0, old(out)@.len() as int) =~= old(out)@);
        }
        i += 1;
    }
    proof {
        assert(parts@.subrange(i as int, parts@.len() as int) =~= Seq::<Expr>::empty());
        assert(out@ =~= old(out)@ + out@.subrange(old(out)@.len() as int, out@.len() as int));
        assert(out@.subrange(old(out)@.len() as int, out@.len() as int) + Seq::<u8>::empty()
            =~= out@.subrange(old(out)@.len() as int, out@.len() as int));
    }
    Ok(())
}

/// Runs the body of a function or mixin: its statements, in the frame just pushed.
pub fn run_body(d: &Decls, stack: &mut Vec<Vec<Variable>>, lines: &Vec<Line>, fuel: u32) -> (r: Result<Option<Value>, Error>)
    requires
        old(stack)@.len() > 0,
    ensures
        match exec_lines(d.env(), stack_view(old(stack)@), lines@, fuel as nat) {
            Ok((st, ret)) => r matches Ok(rv) && opt_val(rv) == ret && stack_view(final(stack)@) == st
                && same_below(final(stack)@, old(stack)@),
            Err(f) => r matches Err(e) && e@ == f,
        },
    decreases fuel, 1nat, lines, 0nat,
{
    let ghost env = d.env();
    let mut i: usize = 0;
    assert(lines@.subrange(0, lines@.len() as int) =~= lines@);
    assert(stack@.subrange(0, stack@.len() - 1) =~= old(stack)@.subrange(0, old(stack)@.len() - 1));
    while i < lines.len()
        invariant
            i <= lines@.len(),
            env == d.env(),
            same_below(stack@, old(stack)@),
            exec_lines(env, stack_view(old(stack)@), lines@, fuel as nat)
                == exec_lines(env, stack_view(stack@), lines@.subrange(i as int, lines@.len() as int), fuel as nat),
        decreases lines@.len() - i,
    {
        let ghost rest = lines@.subrange(i as int, lines@.len() as int);
        let ghost mid = stack@;
        assert(rest[0] == lines@[i as int]);
        assert(rest.drop_first() =~= lines@.subrange(i + 1, lines@.len() as int));
        match run_line(d, stack, &lines[i], fuel) {
            Ok(Some(v)) => {
                proof {
                    assert(stack@.subrange(0, stack@.len() - 1) =~= mid.subrange(0, mid.len() - 1));
                }
                return Ok(Some(v));
            },
            Ok(None) => {},
            Err(e) => {
                return Err(e);
            },
        }
        proof {
            assert(stack@.subrange(0, stack@.len() - 1) =~= mid.subrange(0, mid.len() - 1));
        }
        i += 1;
    }
    assert(lines@.subrange(i as int, lines@.len() as int) =~= Seq::<Line>::empty());
    Ok(None)
}

/// Runs one statement.
pub fn run_line(d: &Decls, stack: &mut Vec<Vec<Variable>>, line: &Line, fuel: u32) -> (r: Result<Option<Value>, Error>)
    requires
        old(stack)@.len() > 0,
    ensures
        match exec_line(d.env(), stack_view(old(stack)@), *line, fuel as nat) {
            Ok((st, ret)) => r matches Ok(rv) && opt_val(rv) == ret && stack_view(final(stack)@) == st
                && same_below(final(stack)@, old(stack)@),
            Err(f) => r matches Err(e) && e@ == f,
        },
    decreases fuel, 1nat, line, 0nat,
{
    match line {
        Line::VarDef(name, x) => {
            let v = match eval(d, stack, x, fuel) {
                Ok(v) => v,
                Err(e) => {
                    return Err(e);
                },
            };
            define_var(stack, copy_bytes(name), v);
            Ok(None)
        },
        Line::Return(x) => {
            let v = match eval(d, stack, x, fuel) {
                Ok(v) => v,
                Err(e) => {
                    return Err(e);
                },
            };
            assert(stack@.subrange(0, stack@.len() - 1) =~= old(stack)@.subrange(0, old(stack)@.len() - 1));
            Ok(Some(v))
        },
        Line::ForLoop(name, iter, body) => {
            let v = match eval(d, stack, iter, fuel) {
                Ok(v) => v,
                Err(e) => {
                    return Err(e);
                },
            };
            match v {
                Value::Tuple(items) => run_loop_values(d, stack, name, items, body, fuel),
                Value::Array(items) => run_loop_values(d, stack, name, items, body, fuel),
                _ => Err(Error::new(ErrorKind::NotIterable, copy_bytes(name), None)),
            }
        },
    }
}

/// Runs `body` once for each item, with `name` bound to it.
pub fn run_loop_values(d: &Decls, stack: &mut Vec<Vec<Variable>>, name: &Vec<u8>, items: Vec<Value>, body: &Vec<Line>, fuel: u32) -> (r: Result<Option<Value>, Error>)
    requires
        old(stack)@.len() > 0,
    ensures
        match run_loop(d.env(), stack_view(old(stack)@), name@, vals_of(items@), body@, fuel as nat) {
            Ok((st, ret)) => r matches Ok(rv) && opt_val(rv) == ret && stack_view(final(stack)@) == st
                && same_below(final(stack)@, old(stack)@),
            Err(f) => r matches Err(e) && e@ == f,
        },
    decreases fuel, 1nat, body, 1nat,
{
    let ghost env = d.env();
    let ghost all = vals_of(items@);
    proof { lemma_vals_of(items@); }
    let mut i: usize = 0;
    assert(all.subrange(0, all.len() as int) =~= all);
    assert(stack@.subrange(0, stack@.len() - 1) =~= old(stack)@.subrange(0, old(stack)@.len() - 1));
    while i < items.len()
        invariant
            i <= items@.len(),
            env == d.env(),
            all == vals_of(items@),
            all.len() == items@.len(),
            forall|k: int| 0 <= k < items@.len() ==> #[trigger] all[k] == val_of(items@[k]),
            same_below(stack@, old(stack)@),
            run_loop(env, stack_view(old(stack)@), name@, all, body@, fuel as nat)
                == run_loop(env, stack_view(stack@), name@, all.subrange(i as int, all.len() as int), body@, fuel as nat),
        decreases items@.len() - i,
    {
        let ghost rest = all.subrange(i as int, all.len() as int);
        let ghost mid = stack@;
        assert(rest[0] == val_of(items@[i as int]));
        assert(rest.drop_first() =~= all.subrange(i + 1, all.len() as int));
        define_var(stack, copy_bytes(name), copy_value(&items[i]));
        match run_body(d, stack, body, fuel) {
            Ok(Some(v)) => {
                proof {
                    assert(stack@.subrange(0, stack@.len() - 1) =~= mid.subrange(0, mid.len() - 1));
                }
                return Ok(Some(v));
            },
            Ok(None) => {},
            Err(e) => {
                return Err(e);
            },
        }
        proof {
            assert(stack@.subrange(0, stack@.len() - 1) =~= mid.subrange(0, mid.len() - 1));
        }
        i += 1;
    }
    assert(all.subrange(i as int, all.len() as int) =~= Seq::<Val>::empty());
    Ok(None)
}

} // verus!

verus! {

/// The CSS text of one property: a mixin's expansion, or a declaration line.
pub fn gen_property(d: &Decls, stack: &mut Vec<Vec<Variable>>, prop: &Property, fuel: u32) -> (r: Result<Vec<u8>, Error>)
    ensures
        text_res(r) == gen_prop(d.env(), stack_view(old(stack)@), *prop, fuel as nat),
        r is Ok ==> final(stack)@ == old(stack)@,
    decreases fuel, 2nat, prop, 0nat,
{
    match find_mixin(&d.mixins, &prop.name) {
        Some(i) => {
            let m = &d.mixins[i];
            let nargs: usize = match &prop.expr {
                Expr::Tuple(items) => items.len(),
                _ => 1,
            };
            if nargs < m.params.len() {
                return Err(Error::new(ErrorKind::NotEnoughArguments, copy_bytes(&prop.name), None));
            }
            let vals = match &prop.expr {
                Expr::Tuple(items) => match eval_all(d, stack, items, fuel) {
                    Ok(vs) => {
                        assert(call_args(prop.expr) == items@);
                        vs
                    },
                    Err(e) => {
                        assert(call_args(prop.expr) == items@);
                        return Err(e);
                    },
                },
                _ => match eval(d, stack, &prop.expr, fuel) {
                    Ok(v) => {
                        proof {
                            let one = seq![prop.expr];
                            assert(call_args(prop.expr) == one);
                            assert(one[0] == prop.expr);
                            assert(one.drop_first() =~= Seq::<Expr>::empty());
                            assert(eval_seq(d.env(), stack_view(old(stack)@), one.drop_first(), fuel as nat)
                                == Ok::<Seq<Val>, Fault>(Seq::empty()));
                            assert(seq![val_of(v)] + Seq::<Val>::empty() =~= seq![val_of(v)]);
                            assert(eval_seq(d.env(), stack_view(old(stack)@), one, fuel as nat)
                                == Ok::<Seq<Val>, Fault>(seq![val_of(v)]));
                        }
                        single(v)
                    },
                    Err(e) => {
                        proof {
                            let one = seq![prop.expr];
                            assert(call_args(prop.expr) == one);
                            assert(one[0] == prop.expr);
                        }
                        return Err(e);
                    },
                },
            };
            assert(eval_seq(d.env(), stack_view(old(stack)@), call_args(prop.expr), fuel as nat)
                == Ok::<Seq<Val>, Fault>(vals_of(vals@)));
            proof {
                lemma_vals_of(vals@);
                crate::semantics::lemma_eval_seq_len(d.env(), stack_view(old(stack)@), call_args(prop.expr), fuel as nat);
            }
            if fuel == 0 {
                return Err(Error::new(ErrorKind::RecursionLimit, copy_bytes(&prop.name), None));
            }
            let frame = bind_args(&m.params, &vals);
            let ghost before = stack@;
            stack.push(frame);
            proof {
                assert(stack_view(stack@) =~= stack_view(before).push(frame_view(frame@)));
            }
            match run_body(d, stack, &m.lines, fuel - 1) {
                Ok(_) => {},
                Err(e) => {
                    return Err(e);
                },
            }
            let text = match gen_properties(d, stack, &m.props, fuel - 1) {
                Ok(t) => t,
                Err(e) => {
                    return Err(e);
                },
            };
            stack.pop();
            proof {
                assert(stack@ =~= before);
            }
            Ok(text)
        },
        None => {
            let v = match eval(d, stack, &prop.expr, fuel) {
                Ok(v) => v,
                Err(e) => {
                    return Err(e);
                },
            };
            let mut out: Vec<u8> = Vec::new();
            out.push(9);
            push_all(&mut out, &prop.name);
            out.push(58);
            out.push(32);
            match render_value(&v, &mut out) {
                Ok(()) => {},
                Err(e) => {
                    return Err(e);
                },
            }
            out.push(59);
            out.push(10);
            proof {
                match render(val_of(v)) {
                    Ok(t) => {
                        assert(out@ =~= declaration(prop.name@, t));
                    },
                    Err(_) => {},
                }
            }
            Ok(out)
        },
    }
}

/// The CSS text of properties, in order.
pub fn gen_properties(d: &Decls, stack: &mut Vec<Vec<Variable>>, props: &Vec<Property>, fuel: u32) -> (r: Result<Vec<u8>, Error>)
    ensures
        text_res(r) == gen_props(d.env(), stack_view(old(stack)@), props@, fuel as nat),
        r is Ok ==> final(stack)@ == old(stack)@,
    decreases fuel, 2nat, props, 0nat,
{
    let ghost env = d.env();
    let ghost st = stack_view(stack@);
    let mut out: Vec<u8> = Vec::new();
    let mut i: usize = 0;
    assert(props@.subrange(0, props@.len() as int) =~= props@);
    proof {
        match gen_props(env, st, props@, fuel as nat) {
            Ok(t) => { assert(out@ + t =~= t); },
            Err(_) => {},
        }
    }
    while i < props.len()
        invariant
            i <= props@.len(),
            env == d.env(),
            stack@ == old(stack)@,
            st == stack_view(stack@),
            gen_props(env, st, props@, fuel as nat) == match gen_props(env, st, props@.subrange(i as int, props@.len() as int), fuel as nat) {
                Ok(t) => Ok(out@ + t),
                Err(e) => Err(e),
            },
        decreases props@.len() - i,
    {
        let ghost rest = props@.subrange(i as int, props@.len() as int);
        assert(rest[0] == props@[i as int]);
        assert(rest.drop_first() =~= props@.subrange(i + 1, props@.len() as int));
        let t = match gen_property(d, stack, &props[i], fuel) {
            Ok(t) => t,
            Err(e) => {
                return Err(e);
            },
        };
        let ghost before = out@;
        let mut t = t;
        let ghost tv = t@;
        out.append(&mut t);
        proof {
            match gen_props(env, st, rest.drop_first(), fuel as nat) {
                Ok(t2) => {
                    assert(before + (tv + t2) =~= out@ + t2);
                },
                Err(_) => {},
            }
        }
        i += 1;
    }
    assert(props@.subrange(i as int, props@.len() as int) =~= Seq::<Property>::empty());
    assert(out@ + Seq::<u8>::empty() =~= out@);
    Ok(out)
}

/// `s` with each `&` replaced by `parent`.
fn replace_parent(s: &Vec<u8>, parent: &Vec<u8>) -> (r: Vec<u8>)
    ensures
        r@ == replace_amp(s@, parent@),
{
    let mut out: Vec<u8> = Vec::new();
    let mut i: usize = 0;
    assert(s@.subrange(0, 0) =~= Seq::<u8>::empty());
    while i < s.len()
        invariant
            i <= s@.len(),
            out@ == replace_amp(s@.subrange(0, i as int), parent@),
        decreases s@.len() - i,
    {
        let ghost before = out@;
        if s[i] == 38 {
            push_all(&mut out, parent);
        } else {
            out.push(s[i]);
        }
        proof {
            let next = s@.subrange(0, i + 1);
            assert(next.drop_last() =~= s@.subrange(0, i as int));
            assert(next.last() == s@[i as int]);
            if s@[i as int] != 38 {
                assert(out@ =~= before + seq![s@[i as int]]);
            }
        }
        i += 1;
    }
    assert(s@.subrange(0, s@.len() as int) =~= s@);
    out
}

fn has_amp(s: &Vec<u8>) -> (r: bool)
    ensures
        r == s@.contains(38u8),
{
    let mut i: usize = 0;
    while i < s.len()
        invariant
            i <= s@.len(),
            forall|k: int| 0 <= k < i ==> s@[k] != 38u8,
        decreases s@.len() - i,
    {
        if s[i] == 38 {
            assert(s@[i as int] == 38u8);
            return true;
        }
        i += 1;
    }
    false
}

/// One nested selector under one parent.
pub fn nest_selector(parent: &Vec<u8>, child: &Vec<u8>) -> (r: Vec<u8>)
    ensures
        r@ == nest(parent@, child@),
{
    if has_amp(child) {
        replace_parent(child, parent)
    } else {
        let mut out = copy_bytes(parent);
        out.push(32);
        push_all(&mut out, child);
        assert(out@ =~= parent@ + seq![32u8] + child@);
        out
    }
}

/// Every child under every parent: for each child in turn, each parent in turn.
pub fn flatten_selectors(parents: &Vec<Vec<u8>>, children: &Vec<Vec<u8>>) -> (r: Vec<Vec<u8>>)
    ensures
        names_view(r@) == flatten(names_view(parents@), names_view(children@)),
{
    let ghost ps = names_view(parents@);
    let ghost cs = names_view(children@);
    let np = parents.len();
    let mut out: Vec<Vec<u8>> = Vec::new();
    let mut c: usize = 0;
    while c < children.len()
        invariant
            c <= children@.len(),
            np == parents@.len(),
            ps == names_view(parents@),
            cs == names_view(children@),
            out@.len() == c * np,
            forall|k: int| 0 <= k < out@.len() ==> (#[trigger] out@[k])@ == nest(ps[k % np as int], cs[k / np as int]),
        decreases children@.len() - c,
    {
        let mut p: usize = 0;
        while p < np
            invariant
                c < children@.len(),
                p <= np,
                np == parents@.len(),
                ps == names_view(parents@),
                cs == names_view(children@),
                out@.len() == c * np + p,
                forall|k: int| 0 <= k < out@.len() ==> (#[trigger] out@[k])@ == nest(ps[k % np as int], cs[k / np as int]),
            decreases np - p,
        {
            let s = nest_selector(&parents[p], &children[c]);
            proof {
                let k = c * np + p;
                vstd::arithmetic::div_mod::lemma_fundamental_div_mod_converse(k as int, np as int, c as int, p as int);
                assert(k / (np as int) == c && k % (np as int) == p);
            }
            out.push(s);
            p += 1;
        }
        proof {
            assert((c + 1) * np == c * np + np) by (nonlinear_arith);
        }
        c += 1;
    }
    assert(names_view(out@) =~= flatten(ps, cs));
    out
}

} // verus!

verus! {

/// Writes the selectors of a rule, one per line.
fn push_joined(out: &mut Vec<u8>, sels: &Vec<Vec<u8>>)
    ensures
        final(out)@ == old(out)@ + join(names_view(sels@), seq![44u8, 10u8]),
{
    let ghost all = names_view(sels@);
    let ghost sep = seq![44u8, 10u8];
    let mut i: usize = 0;
    assert(all.subrange(0, 0) =~= Seq::<Seq<u8>>::empty());
    assert(out@ =~= old(out)@ + Seq::<u8>::empty());
    while i < sels.len()
        invariant
            i <= sels@.len(),
            all == names_view(sels@),
            sep == seq![44u8, 10u8],
            out@ == old(out)@ + join(all.subrange(0, i as int), sep),
        decreases sels@.len() - i,
    {
        let ghost before = out@;
        if i > 0 {
            out.push(44);
            out.push(10);
        }
        push_all(out, &sels[i]);
        proof {
            let next = all.subrange(0, i + 1);
            assert(next.drop_last() =~= all.subrange(0, i as int));
            assert(next.last() == sels@[i as int]@);
            if i == 0 {
                assert(out@ =~= old(out)@ + join(next, sep));
            } else {
                assert(out@ =~= old(out)@ + join(next, sep));
            }
        }
        i += 1;
    }
    assert(all.subrange(0, i as int) =~= all);
}

/// Writes the CSS of a selector block under the selector list `sels`.
pub fn gen_block(d: &Decls, stack: &mut Vec<Vec<Variable>>, sels: &Vec<Vec<u8>>, sel: &Selector, fuel: u32, out: &mut Vec<u8>) -> (r: Result<(), Error>)
    ensures
        match gen_selector(d.env(), stack_view(old(stack)@), names_view(sels@), *sel, fuel as nat) {
            Ok(t) => r is Ok && final(out)@ == old(out)@ + t && final(stack)@ == old(stack)@,
            Err(f) => r matches Err(e) && e@ == f,
        },
    decreases fuel, 3nat, sel, 1nat,
{
    let ghost before = stack@;
    stack.push(Vec::new());
    proof {
        assert(frame_view(Seq::<Variable>::empty()) =~= Seq::<(Seq<u8>, Val)>::empty());
        assert(stack_view(stack@) =~= stack_view(before).push(Seq::empty()));
    }
    match run_body(d, stack, &sel.lines, fuel) {
        Ok(_) => {},
        Err(e) => {
            return Err(e);
        },
    }
    let ghost inner = stack@;
    let decls = match gen_properties(d, stack, &sel.props, fuel) {
        Ok(t) => t,
        Err(e) => {
            return Err(e);
        },
    };
    if decls.len() > 0 {
        push_joined(out, sels);
        out.push(32);
        out.push(123);
        out.push(10);
        push_all(out, &decls);
        out.push(125);
        out.push(10);
        out.push(10);
    }
    proof {
        if decls@.len() > 0 {
            assert(out@ =~= old(out)@ + rule(names_view(sels@), decls@));
        } else {
            assert(out@ =~= old(out)@ + rule(names_view(sels@), decls@));
        }
    }
    match gen_children(d, stack, sels, &sel.nested, fuel, out) {
        Ok(()) => {},
        Err(e) => {
            return Err(e);
        },
    }
    stack.pop();
    proof {
        assert(stack@ =~= before);
        match gen_nested(d.env(), stack_view(inner), names_view(sels@), sel.nested@, fuel as nat) {
            Ok(t) => {
                assert(out@ =~= old(out)@ + (rule(names_view(sels@), decls@) + t));
            },
            Err(_) => {},
        }
    }
    Ok(())
}

/// Writes the CSS of nested blocks under the selector list `sels`.
pub fn gen_children(d: &Decls, stack: &mut Vec<Vec<Variable>>, sels: &Vec<Vec<u8>>, children: &Vec<Selector>, fuel: u32, out: &mut Vec<u8>) -> (r: Result<(), Error>)
    ensures
        match gen_nested(d.env(), stack_view(old(stack)@), names_view(sels@), children@, fuel as nat) {
            Ok(t) => r is Ok && final(out)@ == old(out)@ + t && final(stack)@ == old(stack)@,
            Err(f) => r matches Err(e) && e@ == f,
        },
    decreases fuel, 3nat, children, 0nat,
{
    let ghost env = d.env();
    let ghost st = stack_view(stack@);
    let ghost ps = names_view(sels@);
    let mut i: usize = 0;
    assert(children@.subrange(0, children@.len() as int) =~= children@);
    proof {
        match gen_nested(env, st, ps, children@, fuel as nat) {
            Ok(t) => { assert(Seq::<u8>::empty() + t =~= t); },
            Err(_) => {},
        }
        assert(out@.subrange(old(out)@.len() as int, out@.len() as int) =~= Seq::<u8>::empty());
        assert(out@.subrange(0, old(out)@.len() as int) =~= old(out)@);
    }
    while i < children.len()
        invariant
            i <= children@.len(),
            env == d.env(),
            ps == names_view(sels@),
            stack@ == old(stack)@,
            st == stack_view(stack@),
            old(out)@.len() <= out@.len(),
            out@.subrange(0, old(out)@.len() as int) == old(out)@,
            gen_nested(env, st, ps, children@, fuel as nat) == match gen_nested(env, st, ps, children@.subrange(i as int, children@.len() as int), fuel as nat) {
                Ok(t) => Ok(out@.subrange(old(out)@.len() as int, out@.len() as int) + t),
                Err(e) => Err(e),
            },
        decreases children@.len() - i,
    {
        let ghost rest = children@.subrange(i as int, children@.len() as int);
        let ghost before = out@;
        assert(rest[0] == children@[i as int]);
        assert(rest.drop_first() =~= children@.subrange(i + 1, children@.len() as int));
        let child = &children[i];
        let flat = flatten_selectors(sels, &child.sels);
        match gen_block(d, stack, &flat, child, fuel, out) {
            Ok(()) => {},
            Err(e) => {
                return Err(e);
            },
        }
        proof {
            let written = before.subrange(old(out)@.len() as int, before.len() as int);
            let u = out@.subrange(before.len() as int, out@.len() as int);
            assert(out@ =~= before + u);
            match gen_selector(env, st, flatten(ps, names_view(child.sels@)), *child, fuel as nat) {
                Ok(t) => { assert(u =~= t); },
                Err(_) => {},
            }
            match gen_nested(env, st, ps, rest.drop_first(), fuel as nat) {
                Ok(t2) => {
                    assert(written + (u + t2) =~= (written + u) + t2);
                },
                Err(_) => {},
            }
            assert(out@.subrange(old(out)@.len() as int, out@.len() as int) =~= written + u);
            assert(out@.subrange(0, old(out)@.len() as int) =~= old(out)@);
        }
        i += 1;
    }
    proof {
        assert(children@.subrange(i as int, children@.len() as int) =~= Seq::<Selector>::empty());
        assert(out@ =~= old(out)@ + out@.subrange(old(out)@.len() as int, out@.len() as int));
        assert(out@.subrange(old(out)@.len() as int, out@.len() as int) + Seq::<u8>::empty()
            =~= out@.subrange(old(out)@.len() as int, out@.len() as int));
    }
    Ok(())
}

} // verus!

verus! {

/// Turns a syntax tree into CSS (and JS, which is always empty for now).
pub struct Generator {
    css: Vec<u8>,
    js: Vec<u8>,
    decls: Decls,
}

/// Handles one top-level node.
fn gen_one(css: &mut Vec<u8>, decls: &mut Decls, stack: &mut Vec<Vec<Variable>>, node: Node) -> (r: Result<(), Error>)
    requires
        old(stack)@.len() == 1,
    ensures
        match gen_node(GenState { env: old(decls).env(), stack: stack_view(old(stack)@), css: old(css)@ }, node) {
            Ok(s) => r is Ok && final(decls).env() == s.env && stack_view(final(stack)@) == s.stack
                && final(css)@ == s.css && final(stack)@.len() == 1,
            Err(f) => r matches Err(e) && e@ == f,
        },
{
    reveal(gen_node);
    match node {
        Node::Comment(c) => {
            push_all(css, &c);
            css.push(10);
            css.push(10);
            assert(css@ =~= old(css)@ + c@ + seq![10u8, 10u8]);
            Ok(())
        },
        Node::Line(l) => run_line(decls, stack, &l, MAX_DEPTH).map(|_x: Option<Value>| ()),
        Node::Selector(sel) => gen_block(decls, stack, &sel.sels, &sel, MAX_DEPTH, css),
        Node::Mixin(m) => {
            decls.mixins.push(m);
            Ok(())
        },
        Node::Function(f) => {
            decls.functions.push(f);
            Ok(())
        },
        Node::EOI => Ok(()),
    }
}

impl Generator {
    /// The declarations and CSS so far, with a fresh outermost scope.
    pub closed spec fn state(&self) -> GenState {
        GenState { env: self.decls.env(), stack: seq![Seq::empty()], css: self.css@ }
    }

    pub closed spec fn js(&self) -> Seq<u8> {
        self.js@
    }

    pub fn new() -> (r: Generator)
        ensures
            r.state() == initial_state(),
            r.js().len() == 0,
    {
        let g = Generator {
            css: Vec::new(),
            js: Vec::new(),
            decls: Decls { mixins: Vec::new(), functions: Vec::new() },
        };
        assert(g.state() =~= initial_state());
        g
    }

    /// Generates CSS and JS for `nodes`, after whatever this generator made before:
    /// the CSS so far with the new CSS after it, and the JS (always empty).
    pub fn generate(&mut self, nodes: Vec<Node>) -> (r: Result<(Vec<u8>, Vec<u8>), Error>)
        requires
            old(self).js().len() == 0,
        ensures
            match gen_nodes(old(self).state(), nodes@) {
                Ok(s) => r matches Ok((css, js)) && css@ == s.css && js@.len() == 0
                    && final(self).state() == GenState { stack: seq![Seq::empty()], ..s }
                    && final(self).js().len() == 0,
                Err(f) => r matches Err(e) && e@ == f,
            },
    {
        let ghost s0 = self.state();
        let ghost input = nodes@;
        let mut stack: Vec<Vec<Variable>> = Vec::new();
        stack.push(Vec::new());
        let mut rest = nodes;
        proof {
            assert(frame_view(Seq::<Variable>::empty()) =~= Seq::<(Seq<u8>, Val)>::empty());
            assert(stack_view(stack@) =~= seq![Seq::empty()]);
        }
        while rest.len() > 0
            invariant
                stack@.len() == 1,
                self.js@.len() == 0,
                s0 == old(self).state(),
                input == nodes@,
                gen_nodes(s0, input) == gen_nodes(
                    GenState { env: self.decls.env(), stack: stack_view(stack@), css: self.css@ },
                    rest@,
                ),
            decreases rest@.len(),
        {
            let ghost cur = GenState { env: self.decls.env(), stack: stack_view(stack@), css: self.css@ };
            let ghost all = rest@;
            let node = rest.remove(0);
            assert(rest@ =~= all.drop_first());
            let ghost n0 = node;
            assert(all[0] == n0);
            match gen_one(&mut self.css, &mut self.decls, &mut stack, node) {
                Ok(()) => {},
                Err(e) => {
                    proof {
                        match gen_node(cur, n0) {
                            Err(f) => { assert(gen_nodes(cur, all) == Err::<GenState, Fault>(f)); },
                            Ok(_) => {},
                        }
                    }
                    return Err(e);
                },
            }
            proof {
                let next = GenState { env: self.decls.env(), stack: stack_view(stack@), css: self.css@ };
                match gen_node(cur, n0) {
                    Ok(s) => { assert(s == next); },
                    Err(_) => {},
                }
            }
        }
        let css = copy_bytes(&self.css);
        let js = copy_bytes(&self.js);
        Ok((css, js))
    }
}

} // verus!
