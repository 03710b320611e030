//! Properties of the stylesheet semantics, proved.
use vstd::prelude::*;
use crate::nodes::{Node, Property, Selector};
use crate::semantics::{
    define, flatten, gen_nested, gen_prop, gen_props, gen_selector, generate_css, lookup, nest,
    replace_amp, rule, Env, Fault, Frame, Stack,
};
use crate::value::Val;

verus! {

/// Under a parent, a child fragment without `&` becomes the parent, a space, and the child.
pub proof fn law_descendant(parent: Seq<u8>, child: Seq<u8>)
    requires
        !child.contains(38u8),
    ensures
        nest(parent, child) == parent + seq![32u8] + child,
{
}

/// Flattening keeps declaration order: children in turn, and under each child the parents in turn.
pub proof fn law_flatten_order(parents: Seq<Seq<u8>>, children: Seq<Seq<u8>>, i: int, j: int)
    requires
        0 <= i < children.len(),
        0 <= j < parents.len(),
    ensures
        flatten(parents, children).len() == children.len() * parents.len(),
        flatten(parents, children)[i * parents.len() + j] == nest(parents[j], children[i]),
{
    let n = parents.len() as int;
    assert(0 <= i * n + j < children.len() * n) by (nonlinear_arith)
        requires 0 <= i < children.len(), 0 <= j < n;
    vstd::arithmetic::div_mod::lemma_fundamental_div_mod_converse(i * n + j, n, i, j);
}

/// Plain fragments nested two deep read as a descendant chain: `parent child grandchild`.
pub proof fn law_nesting_chain(parent: Seq<u8>, child: Seq<u8>, grandchild: Seq<u8>)
    requires
        !child.contains(38u8),
        !grandchild.contains(38u8),
    ensures
        flatten(flatten(seq![parent], seq![child]), seq![grandchild])
            == seq![parent + seq![32u8] + child + seq![32u8] + grandchild],
{
    let one = flatten(seq![parent], seq![child]);
    law_flatten_order(seq![parent], seq![child], 0, 0);
    assert(one[0] == nest(parent, child));
    assert(one =~= seq![parent + seq![32u8] + child]);
    let two = flatten(one, seq![grandchild]);
    law_flatten_order(one, seq![grandchild], 0, 0);
    assert(two[0] == nest(one[0], grandchild));
    assert(two =~= seq![parent + seq![32u8] + child + seq![32u8] + grandchild]);
}

pub proof fn lemma_replace_amp_append(s: Seq<u8>, t: Seq<u8>, parent: Seq<u8>)
    ensures
        replace_amp(s + t, parent) == replace_amp(s, parent) + replace_amp(t, parent),
    decreases t.len(),
{
    if t.len() == 0 {
        assert(s + t =~= s);
        assert(replace_amp(s, parent) + Seq::<u8>::empty() =~= replace_amp(s, parent));
    } else {
        assert((s + t).drop_last() =~= s + t.drop_last());
        assert((s + t).last() == t.last());
        lemma_replace_amp_append(s, t.drop_last(), parent);
        let tail = if t.last() == 38 { parent } else { seq![t.last()] };
        assert(replace_amp(s, parent) + replace_amp(t.drop_last(), parent) + tail
            =~= replace_amp(s, parent) + (replace_amp(t.drop_last(), parent) + tail));
    }
}

proof fn lemma_replace_amp_plain(t: Seq<u8>, parent: Seq<u8>)
    requires
        !t.contains(38u8),
    ensures
        replace_amp(t, parent) == t,
    decreases t.len(),
{
    if t.len() > 0 {
        assert(t.last() == t[t.len() - 1]);
        assert(!t.drop_last().contains(38u8)) by {
            if t.drop_last().contains(38u8) {
                let k = choose|k: int| 0 <= k < t.drop_last().len() && t.drop_last()[k] == 38u8;
                assert(t[k] == 38u8);
            }
        }
        lemma_replace_amp_plain(t.drop_last(), parent);
        assert(t.drop_last().push(t.last()) =~= t);
    }
}

/// A nested fragment `&rest` becomes the parent text itself followed by `rest`:
/// `&` is replaced, not prefixed.
pub proof fn law_parent_reference(parent: Seq<u8>, rest: Seq<u8>)
    requires
        !rest.contains(38u8),
    ensures
        nest(parent, seq![38u8] + rest) == parent + rest,
{
    let child = seq![38u8] + rest;
    assert(child[0] == 38u8);
    assert(child.contains(38u8));
    lemma_replace_amp_append(seq![38u8], rest, parent);
    assert(seq![38u8].drop_last() =~= Seq::<u8>::empty());
    assert(seq![38u8].last() == 38u8);
    assert(replace_amp(Seq::<u8>::empty(), parent) == Seq::<u8>::empty());
    assert(Seq::<u8>::empty() + parent =~= parent);
    assert(replace_amp(seq![38u8], parent) =~= parent);
    lemma_replace_amp_plain(rest, parent);
}

/// After substitution no `&` is left, when the parent has none.
pub proof fn law_no_parent_reference_left(child: Seq<u8>, parent: Seq<u8>)
    requires
        !parent.contains(38u8),
    ensures
        !replace_amp(child, parent).contains(38u8),
    decreases child.len(),
{
    if child.len() > 0 {
        law_no_parent_reference_left(child.drop_last(), parent);
        let head = replace_amp(child.drop_last(), parent);
        let tail = if child.last() == 38 { parent } else { seq![child.last()] };
        assert(!tail.contains(38u8)) by {
            if child.last() != 38 && tail.contains(38u8) {
                let k = choose|k: int| 0 <= k < tail.len() && tail[k] == 38u8;
                assert(tail[0] == child.last());
            }
        }
        if (head + tail).contains(38u8) {
            let k = choose|k: int| 0 <= k < (head + tail).len() && (head + tail)[k] == 38u8;
            if k < head.len() {
                assert(head[k] == 38u8);
            } else {
                assert(tail[k - head.len()] == 38u8);
            }
        }
    }
}

/// Two properties, mixin calls or not, are each expanded in the caller's own
/// scope: nothing bound by the first call is seen by the second.
pub proof fn law_calls_independent(env: Env, stack: Stack, first: Property, second: Property, fuel: nat)
    ensures
        gen_props(env, stack, seq![first, second], fuel) == match gen_prop(env, stack, first, fuel) {
            Err(e) => Err(e),
            Ok(a) => match gen_prop(env, stack, second, fuel) {
                Err(e) => Err(e),
                Ok(b) => Ok(a + b),
            },
        },
{
    let ps = seq![first, second];
    assert(ps[0] == first);
    assert(ps.drop_first() =~= seq![second]);
    assert(seq![second][0] == second);
    assert(seq![second].drop_first() =~= Seq::<Property>::empty());
    assert(gen_props(env, stack, Seq::<Property>::empty(), fuel) == Ok::<Seq<u8>, Fault>(Seq::empty()));
    match gen_prop(env, stack, second, fuel) {
        Ok(b) => {
            assert(b + Seq::<u8>::empty() =~= b);
            assert(gen_props(env, stack, seq![second], fuel) == Ok::<Seq<u8>, Fault>(b));
        },
        Err(e) => {
            assert(gen_props(env, stack, seq![second], fuel) == Err::<Seq<u8>, Fault>(e));
        },
    }
}

/// Sibling blocks are each generated from the same enclosing scope: what one
/// binds is gone when the next begins.
pub proof fn law_siblings_independent(env: Env, stack: Stack, sels: Seq<Seq<u8>>, left: Selector, right: Selector, fuel: nat)
    ensures
        gen_nested(env, stack, sels, seq![left, right], fuel) == match gen_selector(env, stack, flatten(sels, crate::value::names_view(left.sels@)), left, fuel) {
            Err(e) => Err(e),
            Ok(a) => match gen_selector(env, stack, flatten(sels, crate::value::names_view(right.sels@)), right, fuel) {
                Err(e) => Err(e),
                Ok(b) => Ok(a + b),
            },
        },
{
    let cs = seq![left, right];
    assert(cs[0] == left);
    assert(cs.drop_first() =~= seq![right]);
    assert(seq![right][0] == right);
    assert(seq![right].drop_first() =~= Seq::<Selector>::empty());
    assert(gen_nested(env, stack, sels, Seq::<Selector>::empty(), fuel) == Ok::<Seq<u8>, Fault>(Seq::empty()));
    match gen_selector(env, stack, flatten(sels, crate::value::names_view(right.sels@)), right, fuel) {
        Ok(b) => {
            assert(b + Seq::<u8>::empty() =~= b);
            assert(gen_nested(env, stack, sels, seq![right], fuel) == Ok::<Seq<u8>, Fault>(b));
        },
        Err(e) => {
            assert(gen_nested(env, stack, sels, seq![right], fuel) == Err::<Seq<u8>, Fault>(e));
        },
    }
}

/// Binding a name and then reading it gives the new value, whatever was bound before.
pub proof fn law_define_then_read(stack: Stack, name: Seq<u8>, v: Val)
    ensures
        lookup(define(stack, name, v), name) == Some(v),
{
    let st = define(stack, name, v);
    crate::semantics::lemma_position_of(crate::semantics::frame_names(st.last()), name);
    if stack.len() == 0 {
        assert(crate::semantics::frame_names(st.last())[0] == name);
    } else {
        let top = stack.last();
        crate::semantics::lemma_position_of(crate::semantics::frame_names(top), name);
        match crate::semantics::position_of(crate::semantics::frame_names(top), name) {
            Some(i) => {
                let nt = top.update(i, (name, v));
                assert(st.last() == nt);
                assert(crate::semantics::frame_names(nt)[i] == name);
                assert forall|k: int| 0 <= k < i implies crate::semantics::frame_names(nt)[k] != name by {
                    assert(crate::semantics::frame_names(nt)[k] == crate::semantics::frame_names(top)[k]);
                }
                crate::semantics::lemma_first_match(crate::semantics::frame_names(nt), name, i);
            },
            None => {
                let nt = top.push((name, v));
                assert(st.last() == nt);
                let k = top.len() as int;
                assert(crate::semantics::frame_names(nt)[k] == name);
                assert forall|j: int| 0 <= j < k implies crate::semantics::frame_names(nt)[j] != name by {
                    assert(crate::semantics::frame_names(nt)[j] == crate::semantics::frame_names(top)[j]);
                }
                crate::semantics::lemma_first_match(crate::semantics::frame_names(nt), name, k);
            },
        }
    }
}

/// A frame made for a call binds each parameter once when the parameter names differ,
/// as the grammar requires of every declaration.
pub proof fn law_call_frame_names_distinct(params: Seq<Seq<u8>>, args: Seq<Val>)
    requires
        crate::grammar::distinct(params),
        args.len() >= params.len(),
    ensures
        crate::grammar::distinct(crate::semantics::frame_names(crate::semantics::bind(params, args))),
{
    let f = crate::semantics::bind(params, args);
    assert(crate::semantics::frame_names(f) =~= params);
}

/// Binding a name in a frame whose names differ keeps them different: the frame then
/// holds exactly one binding of that name, and every other binding stays where it was.
pub proof fn law_define_keeps_one_binding(stack: Stack, name: Seq<u8>, v: Val)
    requires
        stack.len() > 0,
        crate::grammar::distinct(crate::semantics::frame_names(stack.last())),
    ensures
        ({
            let top = stack.last();
            let names = crate::semantics::frame_names(define(stack, name, v).last());
            &&& crate::grammar::distinct(names)
            &&& exists|k: int| 0 <= k < names.len() && names[k] == name
            &&& forall|k: int| 0 <= k < top.len() && top[k].0 != name ==> define(stack, name, v).last()[k] == top[k]
            &&& define(stack, name, v).drop_last() == stack.drop_last()
        }),
{
    let top = stack.last();
    let old_names = crate::semantics::frame_names(top);
    crate::semantics::lemma_position_of(old_names, name);
    let st = define(stack, name, v);
    assert(st.drop_last() =~= stack.drop_last());
    let names = crate::semantics::frame_names(st.last());
    match crate::semantics::position_of(old_names, name) {
        Some(i) => {
            assert(st.last() == top.update(i, (name, v)));
            assert(names =~= old_names.update(i, name));
            assert(names[i] == name);
        },
        None => {
            assert(st.last() == top.push((name, v)));
            assert(names =~= old_names.push(name));
            assert(names[top.len() as int] == name);
        },
    }
}

/// Rebinding a name in the same frame replaces its value for later reads.
pub proof fn law_shadowing(stack: Stack, name: Seq<u8>, v1: Val, v2: Val)
    ensures
        lookup(define(define(stack, name, v1), name, v2), name) == Some(v2),
{
    law_define_then_read(define(stack, name, v1), name, v2);
}

/// An inner frame that does not bind a name lets the outer binding show through.
pub proof fn law_inner_reads_outer(stack: Stack, frame: Frame, name: Seq<u8>)
    requires
        forall|k: int| 0 <= k < frame.len() ==> frame[k].0 != name,
    ensures
        lookup(stack.push(frame), name) == lookup(stack, name),
{
    crate::semantics::lemma_position_of(crate::semantics::frame_names(frame), name);
    assert(stack.push(frame).last() == frame);
    assert(stack.push(frame).drop_last() =~= stack);
    if crate::semantics::position_of(crate::semantics::frame_names(frame), name) is Some {
        let i = crate::semantics::position_of(crate::semantics::frame_names(frame), name)->Some_0;
        assert(crate::semantics::frame_names(frame)[i] == frame[i].0);
    }
}

/// Whatever an inner block binds, leaving it gives back the outer frames unchanged.
pub proof fn law_inner_does_not_touch_outer(stack: Stack, frame: Frame, name: Seq<u8>, v: Val)
    ensures
        define(stack.push(frame), name, v).drop_last() == stack,
{
    assert(stack.push(frame).drop_last() =~= stack);
    assert(define(stack.push(frame), name, v).drop_last() =~= stack);
}

/// A rule with no declarations is no text at all, not even `{}`.
pub proof fn law_empty_rule(sels: Seq<Seq<u8>>)
    ensures
        rule(sels, Seq::empty()) == Seq::<u8>::empty(),
{
}

/// A block whose own properties give no declarations writes only its nested blocks.
pub proof fn law_empty_block_suppressed(env: Env, stack: Stack, sels: Seq<Seq<u8>>, sel: Selector, fuel: nat)
    requires
        match crate::semantics::exec_lines(env, stack.push(Seq::empty()), sel.lines@, fuel) {
            Ok((st, _)) => gen_props(env, st, sel.props@, fuel) == Ok::<Seq<u8>, Fault>(Seq::empty()),
            Err(_) => false,
        },
    ensures
        gen_selector(env, stack, sels, sel, fuel) == match crate::semantics::exec_lines(env, stack.push(Seq::empty()), sel.lines@, fuel) {
            Ok((st, _)) => gen_nested(env, st, sels, sel.nested@, fuel),
            Err(e) => Err(e),
        },
{
    match crate::semantics::exec_lines(env, stack.push(Seq::empty()), sel.lines@, fuel) {
        Ok((st, _)) => {
            match gen_nested(env, st, sels, sel.nested@, fuel) {
                Ok(t) => { assert(Seq::<u8>::empty() + t =~= t); },
                Err(_) => {},
            }
        },
        Err(_) => {},
    }
}

/// A block with no properties and no nested blocks writes nothing.
pub proof fn law_bare_block_writes_nothing(env: Env, stack: Stack, sels: Seq<Seq<u8>>, sel: Selector, fuel: nat)
    requires
        sel.props@.len() == 0,
        sel.nested@.len() == 0,
        crate::semantics::exec_lines(env, stack.push(Seq::empty()), sel.lines@, fuel) is Ok,
    ensures
        gen_selector(env, stack, sels, sel, fuel) == Ok::<Seq<u8>, Fault>(Seq::empty()),
{
    assert(Seq::<u8>::empty() + Seq::<u8>::empty() =~= Seq::<u8>::empty());
}

/// The tree read from a source depends on the source alone: reading it twice gives the same tree.
pub proof fn law_parse_deterministic(a: Seq<u8>, b: Seq<u8>)
    requires
        a == b,
    ensures
        crate::grammar::stylesheet(a, 0) == crate::grammar::stylesheet(b, 0),
{
}

/// The CSS of a syntax tree depends on the tree alone: generating it twice gives the same result.
pub proof fn law_generation_deterministic(a: Seq<Node>, b: Seq<Node>)
    requires
        a == b,
    ensures
        generate_css(a) == generate_css(b),
{
}

} // verus!
