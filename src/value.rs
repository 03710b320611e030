use vstd::prelude::*;

verus! {

/// A fully evaluated value. Numbers are fixed-point, in millionths.
#[derive(Debug)]
pub enum Value {
    Keyword(Vec<u8>),
    Hash(Vec<u8>),
    Number(i64),
    Str(Vec<u8>),
    Dimension(i64, Vec<u8>),
    Tuple(Vec<Value>),
    Array(Vec<Value>),
    Object(Vec<Vec<u8>>, Vec<Value>),
}

/// The mathematical form of a `Value`.
pub enum Val {
    Keyword(Seq<u8>),
    Hash(Seq<u8>),
    Number(int),
    Str(Seq<u8>),
    Dimension(int, Seq<u8>),
    Tuple(Seq<Val>),
    Array(Seq<Val>),
    Object(Seq<Seq<u8>>, Seq<Val>),
}

pub open spec fn names_view(names: Seq<Vec<u8>>) -> Seq<Seq<u8>> {
    names.map_values(|n: Vec<u8>| n@)
}

pub open spec fn val_of(v: Value) -> Val
    decreases v,
{
    match v {
        Value::Keyword(s) => Val::Keyword(s@),
        Value::Hash(s) => Val::Hash(s@),
        Value::Number(n) => Val::Number(n as int),
        Value::Str(s) => Val::Str(s@),
        Value::Dimension(n, u) => Val::Dimension(n as int, u@),
        Value::Tuple(items) => Val::Tuple(vals_of(items@)),
        Value::Array(items) => Val::Array(vals_of(items@)),
        Value::Object(names, items) => Val::Object(names_view(names@), vals_of(items@)),
    }
}

pub open spec fn vals_of(s: Seq<Value>) -> Seq<Val>
    decreases s,
{
    if s.len() == 0 {
        Seq::empty()
    } else {
        vals_of(s.drop_last()).push(val_of(s.last()))
    }
}

pub proof fn lemma_vals_of(s: Seq<Value>)
    ensures
        vals_of(s).len() == s.len(),
        forall|i: int| 0 <= i < s.len() ==> #[trigger] vals_of(s)[i] == val_of(s[i]),
    decreases s.len(),
{
    if s.len() > 0 {
        lemma_vals_of(s.drop_last());
    }
}

pub proof fn lemma_vals_of_push(s: Seq<Value>, v: Value)
    ensures
        vals_of(s.push(v)) == vals_of(s).push(val_of(v)),
{
    assert(s.push(v).drop_last() =~= s);
}

pub fn copy_bytes(v: &Vec<u8>) -> (r: Vec<u8>)
    ensures
        r@ == v@,
{
    let mut r: Vec<u8> = Vec::new();
    let mut i: usize = 0;
    while i < v.len()
        invariant
            i <= v@.len(),
            r@ == v@.subrange(0, i as int),
        decreases v@.len() - i,
    {
        r.push(v[i]);
        i += 1;
        assert(r@ == v@.subrange(0, i as int));
    }
    assert(r@ =~= v@);
    r
}

pub fn copy_names(v: &Vec<Vec<u8>>) -> (r: Vec<Vec<u8>>)
    ensures
        names_view(r@) == names_view(v@),
        r@.len() == v@.len(),
{
    let mut r: Vec<Vec<u8>> = Vec::new();
    let mut i: usize = 0;
    while i < v.len()
        invariant
            i <= v@.len(),
            r@.len() == i,
            forall|k: int| 0 <= k < i ==> #[trigger] r@[k]@ == v@[k]@,
        decreases v@.len() - i,
    {
        r.push(copy_bytes(&v[i]));
        i += 1;
    }
    assert(names_view(r@) =~= names_view(v@));
    r
}

pub fn copy_value(v: &Value) -> (r: Value)
    ensures
        val_of(r) == val_of(*v),
    decreases v,
{
    match v {
        Value::Keyword(s) => Value::Keyword(copy_bytes(s)),
        Value::Hash(s) => Value::Hash(copy_bytes(s)),
        Value::Number(n) => Value::Number(*n),
        Value::Str(s) => Value::Str(copy_bytes(s)),
        Value::Dimension(n, u) => Value::Dimension(*n, copy_bytes(u)),
        Value::Tuple(items) => Value::Tuple(copy_values(items)),
        Value::Array(items) => Value::Array(copy_values(items)),
        Value::Object(names, items) => Value::Object(copy_names(names), copy_values(items)),
    }
}

pub fn copy_values(v: &Vec<Value>) -> (r: Vec<Value>)
    ensures
        vals_of(r@) == vals_of(v@),
    decreases v,
{
    let mut r: Vec<Value> = Vec::new();
    let mut i: usize = 0;
    while i < v.len()
        invariant
            i <= v@.len(),
            vals_of(r@) == vals_of(v@.subrange(0, i as int)),
        decreases v@.len() - i,
    {
        let c = copy_value(&v[i]);
        proof {
            lemma_vals_of_push(r@, c);
            lemma_vals_of_push(v@.subrange(0, i as int), v@[i as int]);
            assert(v@.subrange(0, i as int).push(v@[i as int]) =~= v@.subrange(0, i + 1));
        }
        r.push(c);
        i += 1;
    }
    assert(v@.subrange(0, v@.len() as int) =~= v@);
    r
}

/// A name bound in a scope frame.
#[derive(Debug)]
pub struct Variable {
    pub name: Vec<u8>,
    pub value: Value,
}

} // verus!
