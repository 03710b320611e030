//! Reads glaze source into a syntax tree. Blocks are marked by indentation:
//! one tab, or one run of four spaces, per level.
use vstd::prelude::*;
use crate::error::{Error, ErrorKind};
use crate::grammar::{
    atom_expr, blanks, brace_expr, byte, comment_at, ends_value, field_chain, field_entry, hash_expr, interpolation_expr, interpolation_parts, item_expr, keyword_start, list_expr, list_items, number_expr, object_ahead, object_fields, object_value, param_items, param_list, paren_expr, piece_expr, piece_inner, piece_interpolation, selector_list, selector_stop, stalls, string_expr, trim_back, unexpected_at, unfold_atom_expr, unfold_brace_expr, unfold_field_entry, unfold_interpolation_expr, unfold_interpolation_parts, unfold_item_expr, unfold_list_expr, unfold_list_items, unfold_object_fields, unfold_object_value, unfold_paren_expr, unfold_paren_items, paren_items, unfold_piece_expr, unfold_piece_inner, unfold_piece_interpolation, unfold_value_expr, unfold_value_items, unfold_variable_expr, unfold_word_expr, value_expr, value_items, variable_expr, word_expr, skip_blank, statement_start,
    value_line, unfold_value_line, statement, unfold_statement, lines_block, unfold_lines_block, MemberV,
    property_at, unfold_property_at, member, unfold_member, block, unfold_block, returns_in,
    declaration, unfold_declaration, distinct, top_item, unfold_top_item, unfold_selector_node, stylesheet,
    unfold_stylesheet,
};
use crate::lexer::{comment_close, is_alpha, is_digit, line_end, run, Lexer};
use crate::nodes::{
    expr_v, exprs_v, lemma_exprs_v, lemma_exprs_v_prepend, lemma_exprs_v_push, lemma_lines_v,
    lemma_lines_v_prepend, lemma_sels_v_prepend, line_v, lines_v, node_v, nodes_v, prop_v, props_v,
    sel_v, sels_v, texts, Expr, ExprV, Function, Line, LineV, Mixin, Node, NodeV, Property, PropertyV,
    Selector, SelectorV,
};
use crate::semantics::Fault;

verus! {

broadcast use crate::lexer::lemma_lexer_wf;

/// What every reading step keeps: a well-formed cursor over the same input, never moved back.
pub open spec fn steps(a: Lexer, b: Lexer) -> bool {
    &&& b.wf()
    &&& b.bytes() == a.bytes()
    &&& a.pos() <= b.pos()
}

/// `r` is what the grammar gives at the place where reading began, and `lx` stands where it ends.
pub open spec fn reads_expr(r: Result<Expr, Error>, g: Result<(ExprV, int), Fault>, lx: Lexer) -> bool {
    match g {
        Ok((x, q)) => r matches Ok(e) && expr_v(e) == x && lx.pos() == q,
        Err(f) => r matches Err(e) && e@ == f,
    }
}

pub open spec fn reads_exprs(r: Result<Vec<Expr>, Error>, g: Result<(Seq<ExprV>, int), Fault>, lx: Lexer) -> bool {
    match g {
        Ok((x, q)) => r matches Ok(e) && exprs_v(e@) == x && lx.pos() == q,
        Err(f) => r matches Err(e) && e@ == f,
    }
}

fn unexpected(lx: &Lexer) -> (e: Error)
    requires
        lx.wf(),
    ensures
        e@ == unexpected_at(lx.bytes(), lx.pos()),
{
    Error::bare(ErrorKind::UnexpectedSymbol, Some(lx.position()))
}

fn is_keyword_start(c: u8) -> (r: bool)
    ensures
        r == keyword_start(c),
{
    (65 <= c && c <= 90) || (97 <= c && c <= 122) || c == 95 || c == 45 || c == 33
}

fn ends_value_here(lx: &Lexer) -> (r: bool)
    requires
        lx.wf(),
    ensures
        r == ends_value(lx.bytes(), lx.pos()),
{
    let c = lx.at(0);
    c == 44 || c == 41 || c == 93 || c == 125 || !lx.has_left() || c == 10 || c == 13 || (c == 47 && lx.at(1) == 47)
}

/// Items separated by spaces, up to what ends a value.
fn parse_value_items(lx: &mut Lexer) -> (r: Result<Vec<Expr>, Error>)
    requires
        old(lx).wf(),
    ensures
        steps(*old(lx), *final(lx)),
        r is Ok ==> final(lx).pos() > old(lx).pos(),
        reads_exprs(r, value_items(old(lx).bytes(), old(lx).pos()), *final(lx)),
    decreases old(lx).bytes().len() - old(lx).pos(), 22nat,
{
    proof { unfold_value_items(lx.bytes(), lx.pos()); }
    let item = match parse_item(lx) {
        Ok(e) => e,
        Err(e) => {
            return Err(e);
        },
    };
    let m = lx.mark();
    lx.skip_blanks();
    if ends_value_here(lx) {
        lx.reset(m);
        let mut v: Vec<Expr> = Vec::new();
        proof { lemma_exprs_v_push(v@, item); }
        v.push(item);
        assert(exprs_v(Seq::<Expr>::empty()) =~= Seq::<ExprV>::empty());
        return Ok(v);
    }
    let mut rest = match parse_value_items(lx) {
        Ok(v) => v,
        Err(e) => {
            return Err(e);
        },
    };
    let ghost tail = rest@;
    proof { lemma_exprs_v_prepend(item, tail); }
    rest.insert(0, item);
    assert(rest@ =~= seq![item] + tail);
    Ok(rest)
}

/// A value: one item, or several separated by spaces, which make a tuple.
/// It ends before a line end, `,`, `)`, `]` or `}`.
fn parse_value(lx: &mut Lexer) -> (r: Result<Expr, Error>)
    requires
        old(lx).wf(),
    ensures
        steps(*old(lx), *final(lx)),
        r is Ok ==> final(lx).pos() > old(lx).pos(),
        reads_expr(r, value_expr(old(lx).bytes(), old(lx).pos()), *final(lx)),
    decreases old(lx).bytes().len() - old(lx).pos(), 23nat,
{
    proof { unfold_value_expr(lx.bytes(), lx.pos()); }
    let mut items = match parse_value_items(lx) {
        Ok(v) => v,
        Err(e) => {
            return Err(e);
        },
    };
    proof { lemma_exprs_v(items@); }
    if items.len() == 1 {
        Ok(items.pop().unwrap())
    } else {
        Ok(Expr::Tuple(items))
    }
}

/// An atom, or an atom, an operator and an item (operators group to the right).
fn parse_item(lx: &mut Lexer) -> (r: Result<Expr, Error>)
    requires
        old(lx).wf(),
    ensures
        steps(*old(lx), *final(lx)),
        r is Ok ==> final(lx).pos() > old(lx).pos(),
        reads_expr(r, item_expr(old(lx).bytes(), old(lx).pos()), *final(lx)),
    decreases old(lx).bytes().len() - old(lx).pos(), 21nat,
{
    proof { unfold_item_expr(lx.bytes(), lx.pos()); }
    let a = match parse_atom(lx) {
        Ok(a) => a,
        Err(e) => {
            return Err(e);
        },
    };
    let m = lx.mark();
    match lx.try_binary_op() {
        Some(op) => {
            lx.skip_blanks();
            let c = lx.at(0);
            if !lx.has_left() || c == 10 || c == 13 {
                lx.reset(m);
                return Ok(a);
            }
            match parse_item(lx) {
                Ok(b) => Ok(Expr::Operation(op, Box::new(a), Box::new(b))),
                Err(e) => Err(e),
            }
        },
        None => Ok(a),
    }
}

/// Values separated by commas up to `close`.
fn parse_list_items(lx: &mut Lexer, close: u8) -> (r: Result<Vec<Expr>, Error>)
    requires
        old(lx).wf(),
    ensures
        steps(*old(lx), *final(lx)),
        r is Ok ==> final(lx).pos() > old(lx).pos(),
        reads_exprs(r, list_items(old(lx).bytes(), old(lx).pos(), close), *final(lx)),
    decreases old(lx).bytes().len() - old(lx).pos(), 24nat,
{
    proof { unfold_list_items(lx.bytes(), lx.pos(), close); }
    let e = match parse_value(lx) {
        Ok(e) => e,
        Err(e) => {
            return Err(e);
        },
    };
    lx.skip_blanks();
    if !lx.has_left() {
        return Err(unexpected(lx));
    }
    let c = lx.at(0);
    lx.advance(1);
    if c == close {
        let mut v: Vec<Expr> = Vec::new();
        proof { lemma_exprs_v_push(v@, e); }
        v.push(e);
        assert(exprs_v(Seq::<Expr>::empty()) =~= Seq::<ExprV>::empty());
        return Ok(v);
    } else if c != 44 {
        return Err(unexpected(lx));
    }
    lx.skip_blanks();
    let mut rest = match parse_list_items(lx, close) {
        Ok(v) => v,
        Err(e) => {
            return Err(e);
        },
    };
    let ghost tail = rest@;
    proof { lemma_exprs_v_prepend(e, tail); }
    rest.insert(0, e);
    assert(rest@ =~= seq![e] + tail);
    Ok(rest)
}

/// Values separated by commas up to `close`, whose opening has been taken.
fn parse_list(lx: &mut Lexer, close: u8) -> (r: Result<Vec<Expr>, Error>)
    requires
        old(lx).wf(),
    ensures
        steps(*old(lx), *final(lx)),
        r is Ok ==> final(lx).pos() > old(lx).pos(),
        reads_exprs(r, list_expr(old(lx).bytes(), old(lx).pos(), close), *final(lx)),
    decreases old(lx).bytes().len() - old(lx).pos(), 25nat,
{
    proof { unfold_list_expr(lx.bytes(), lx.pos(), close); }
    lx.skip_blanks();
    if lx.at(0) == close && lx.has_left() {
        lx.advance(1);
        let v: Vec<Expr> = Vec::new();
        assert(exprs_v(v@) =~= Seq::<ExprV>::empty());
        return Ok(v);
    }
    parse_list_items(lx, close)
}

/// Inside `{...}`, past spaces: a bare name, or a value.
fn parse_piece_inner(lx: &mut Lexer) -> (r: Result<Expr, Error>)
    requires
        old(lx).wf(),
    ensures
        steps(*old(lx), *final(lx)),
        r is Ok ==> final(lx).pos() > old(lx).pos(),
        reads_expr(r, piece_inner(old(lx).bytes(), old(lx).pos()), *final(lx)),
    decreases old(lx).bytes().len() - old(lx).pos(), 24nat,
{
    proof { unfold_piece_inner(lx.bytes(), lx.pos()); }
    let at = lx.position();
    let m = lx.mark();
    match lx.try_symbol() {
        Some(name) => {
            lx.skip_blanks();
            if lx.at(0) == 125 && lx.has_left() {
                Ok(Expr::Variable(name, at))
            } else {
                lx.reset(m);
                parse_value(lx)
            }
        },
        None => parse_value(lx),
    }
}

/// `{name}` or `{value}` inside an interpolation; the `{` has been taken.
fn parse_piece(lx: &mut Lexer) -> (r: Result<Expr, Error>)
    requires
        old(lx).wf(),
    ensures
        steps(*old(lx), *final(lx)),
        r is Ok ==> final(lx).pos() > old(lx).pos(),
        reads_expr(r, piece_expr(old(lx).bytes(), old(lx).pos()), *final(lx)),
    decreases old(lx).bytes().len() - old(lx).pos(), 25nat,
{
    proof { unfold_piece_expr(lx.bytes(), lx.pos()); }
    lx.skip_blanks();
    let e = match parse_piece_inner(lx) {
        Ok(e) => e,
        Err(e) => {
            return Err(e);
        },
    };
    lx.skip_blanks();
    if lx.at(0) == 125 && lx.has_left() {
        lx.advance(1);
        Ok(e)
    } else {
        Err(unexpected(lx))
    }
}

/// Further parts of an interpolation: `{...}` parts and runs of keyword bytes, with nothing between them.
fn parse_interpolation_parts(lx: &mut Lexer) -> (r: Result<Vec<Expr>, Error>)
    requires
        old(lx).wf(),
    ensures
        steps(*old(lx), *final(lx)),
        reads_exprs(r, interpolation_parts(old(lx).bytes(), old(lx).pos()), *final(lx)),
    decreases old(lx).bytes().len() - old(lx).pos(), 26nat,
{
    proof { unfold_interpolation_parts(lx.bytes(), lx.pos()); }
    let e = if lx.at(0) == 123 && lx.has_left() {
        lx.advance(1);
        match parse_piece(lx) {
            Ok(e) => e,
            Err(e) => {
                return Err(e);
            },
        }
    } else {
        let n = lx.keyword_len();
        if n == 0 {
            let v: Vec<Expr> = Vec::new();
            assert(exprs_v(v@) =~= Seq::<ExprV>::empty());
            return Ok(v);
        }
        let t = lx.take(n);
        Expr::Keyword(t)
    };
    let mut rest = match parse_interpolation_parts(lx) {
        Ok(v) => v,
        Err(e) => {
            return Err(e);
        },
    };
    let ghost tail = rest@;
    proof { lemma_exprs_v_prepend(e, tail); }
    rest.insert(0, e);
    assert(rest@ =~= seq![e] + tail);
    Ok(rest)
}

/// An interpolation: `first`, then further parts.
fn parse_interpolation(lx: &mut Lexer, first: Expr) -> (r: Result<Expr, Error>)
    requires
        old(lx).wf(),
    ensures
        steps(*old(lx), *final(lx)),
        reads_expr(r, interpolation_expr(old(lx).bytes(), old(lx).pos(), expr_v(first)), *final(lx)),
    decreases old(lx).bytes().len() - old(lx).pos(), 27nat,
{
    proof { unfold_interpolation_expr(lx.bytes(), lx.pos(), expr_v(first)); }
    let mut parts = match parse_interpolation_parts(lx) {
        Ok(v) => v,
        Err(e) => {
            return Err(e);
        },
    };
    let ghost tail = parts@;
    proof { lemma_exprs_v_prepend(first, tail); }
    parts.insert(0, first);
    assert(parts@ =~= seq![first] + tail);
    Ok(Expr::Interpolation(parts))
}

/// `{}`, `{name: value, ...}`, or an interpolation opening with `{...}`; the `{` has been taken.
fn parse_brace(lx: &mut Lexer) -> (r: Result<Expr, Error>)
    requires
        old(lx).wf(),
    ensures
        steps(*old(lx), *final(lx)),
        r is Ok ==> final(lx).pos() > old(lx).pos(),
        reads_expr(r, brace_expr(old(lx).bytes(), old(lx).pos()), *final(lx)),
    decreases old(lx).bytes().len() - old(lx).pos(), 28nat,
{
    proof { unfold_brace_expr(lx.bytes(), lx.pos()); }
    let ghost s = lx.bytes();
    let ghost p0 = lx.pos();
    if empty_braces_ahead(lx) {
        lx.skip_blanks();
        lx.advance(1);
        let ns: Vec<Vec<u8>> = Vec::new();
        let es: Vec<Expr> = Vec::new();
        proof {
            assert(texts(ns@) =~= Seq::<Seq<u8>>::empty());
            assert(exprs_v(es@) =~= Seq::<ExprV>::empty());
        }
        return Ok(Expr::Object(ns, es));
    }
    if !is_object_ahead(lx) {
        return parse_piece_interpolation(lx);
    }
    parse_object(lx)
}

/// An object's fields up to its `}`.
fn parse_object(lx: &mut Lexer) -> (r: Result<Expr, Error>)
    requires
        old(lx).wf(),
    ensures
        steps(*old(lx), *final(lx)),
        r is Ok ==> final(lx).pos() > old(lx).pos(),
        reads_expr(r, object_value(old(lx).bytes(), old(lx).pos()), *final(lx)),
    decreases old(lx).bytes().len() - old(lx).pos(), 27nat,
{
    proof { unfold_object_value(lx.bytes(), lx.pos()); }
    match parse_object_fields(lx) {
        Ok((names, items)) => Ok(Expr::Object(names, items)),
        Err(e) => Err(e),
    }
}

/// One `name: value` field.
fn parse_field(lx: &mut Lexer) -> (r: Result<(Vec<u8>, Expr), Error>)
    requires
        old(lx).wf(),
    ensures
        steps(*old(lx), *final(lx)),
        r is Ok ==> final(lx).pos() > old(lx).pos(),
        match field_entry(old(lx).bytes(), old(lx).pos()) {
            Ok((name, e, q)) => r matches Ok((n, x)) && n@ == name && expr_v(x) == e && final(lx).pos() == q,
            Err(f) => r matches Err(e) && e@ == f,
        },
    decreases old(lx).bytes().len() - old(lx).pos(), 25nat,
{
    proof { unfold_field_entry(lx.bytes(), lx.pos()); }
    lx.skip_blanks();
    let name = match lx.try_symbol() {
        Some(n) => n,
        None => {
            return Err(unexpected(lx));
        },
    };
    lx.skip_blanks();
    if !(lx.at(0) == 58 && lx.has_left()) {
        return Err(unexpected(lx));
    }
    lx.advance(1);
    lx.skip_blanks();
    match parse_value(lx) {
        Ok(e) => Ok((name, e)),
        Err(e) => Err(e),
    }
}

/// `name: value` fields separated by commas up to `}`.
fn parse_object_fields(lx: &mut Lexer) -> (r: Result<(Vec<Vec<u8>>, Vec<Expr>), Error>)
    requires
        old(lx).wf(),
    ensures
        steps(*old(lx), *final(lx)),
        r is Ok ==> final(lx).pos() > old(lx).pos(),
        match object_fields(old(lx).bytes(), old(lx).pos()) {
            Ok((ns, es, q)) => r matches Ok((n, e)) && texts(n@) == ns && exprs_v(e@) == es && final(lx).pos() == q,
            Err(f) => r matches Err(e) && e@ == f,
        },
    decreases old(lx).bytes().len() - old(lx).pos(), 26nat,
{
    proof { unfold_object_fields(lx.bytes(), lx.pos()); }
    let (name, e) = match parse_field(lx) {
        Ok(x) => x,
        Err(e) => {
            return Err(e);
        },
    };
    lx.skip_blanks();
    if !lx.has_left() {
        return Err(unexpected(lx));
    }
    let c = lx.at(0);
    lx.advance(1);
    let (mut names, mut items) = if c == 125 {
        let ns: Vec<Vec<u8>> = Vec::new();
        let es: Vec<Expr> = Vec::new();
        assert(texts(ns@) =~= Seq::<Seq<u8>>::empty());
        assert(exprs_v(es@) =~= Seq::<ExprV>::empty());
        (ns, es)
    } else if c != 44 {
        return Err(unexpected(lx));
    } else {
        match parse_object_fields(lx) {
            Ok(x) => x,
            Err(e) => {
                return Err(e);
            },
        }
    };
    let ghost ntail = names@;
    let ghost etail = items@;
    proof { lemma_exprs_v_prepend(e, etail); }
    let ghost nv = name@;
    names.insert(0, name);
    items.insert(0, e);
    assert(names@ =~= seq![name] + ntail);
    assert(texts(names@) =~= seq![nv] + texts(ntail));
    assert(items@ =~= seq![e] + etail);
    Ok((names, items))
}

/// `.field` after `.field`.
fn parse_field_chain(lx: &mut Lexer) -> (r: Result<Vec<Vec<u8>>, Error>)
    requires
        old(lx).wf(),
    ensures
        steps(*old(lx), *final(lx)),
        match field_chain(old(lx).bytes(), old(lx).pos()) {
            Ok((fs, q)) => r matches Ok(f) && texts(f@) == fs && final(lx).pos() == q,
            Err(f) => r matches Err(e) && e@ == f,
        },
    decreases old(lx).bytes().len() - old(lx).pos(),
{
    if !(lx.at(0) == 46 && lx.has_left() && lx.at(1) != 46) {
        let v: Vec<Vec<u8>> = Vec::new();
        assert(texts(v@) =~= Seq::<Seq<u8>>::empty());
        return Ok(v);
    }
    lx.advance(1);
    let f = match lx.try_symbol() {
        Some(f) => f,
        None => {
            return Err(unexpected(lx));
        },
    };
    let mut rest = match parse_field_chain(lx) {
        Ok(v) => v,
        Err(e) => {
            return Err(e);
        },
    };
    let ghost tail = rest@;
    let ghost fv = f@;
    rest.insert(0, f);
    assert(rest@ =~= seq![f] + tail);
    assert(texts(rest@) =~= seq![fv] + texts(tail));
    Ok(rest)
}

/// `$name`, then `.field`s or one `[index]`.
fn parse_variable(lx: &mut Lexer) -> (r: Result<Expr, Error>)
    requires
        old(lx).wf(),
        old(lx).byte_ahead(0) == 36,
    ensures
        steps(*old(lx), *final(lx)),
        r is Ok ==> final(lx).pos() > old(lx).pos(),
        reads_expr(r, variable_expr(old(lx).bytes(), old(lx).pos()), *final(lx)),
    decreases old(lx).bytes().len() - old(lx).pos(), 19nat,
{
    proof { unfold_variable_expr(lx.bytes(), lx.pos()); }
    let ghost s = lx.bytes();
    let ghost p = lx.pos();
    let at = lx.position();
    lx.advance(1);
    let name = match lx.try_symbol() {
        Some(n) => n,
        None => {
            return Err(unexpected(lx));
        },
    };
    let ghost q = lx.pos();
    assert(q == p + 1 + crate::lexer::symbol_run(s, p + 1));
    assert(name@ == s.subrange(p + 1, q));
    let var = Expr::Variable(name, at);
    assert(expr_v(var) == ExprV::Variable(s.subrange(p + 1, q), crate::lexer::place(s, p)));
    if lx.at(0) == 46 && lx.has_left() && lx.at(1) != 46 {
        match parse_field_chain(lx) {
            Ok(fields) => Ok(Expr::ObjectAccessor(Box::new(var), fields)),
            Err(e) => Err(e),
        }
    } else if lx.at(0) == 91 && lx.has_left() {
        lx.advance(1);
        lx.skip_blanks();
        let ghost r = lx.pos();
        assert(r == blanks(s, q + 1));
        assert(!stalls(s, p, r));
        let idx = match parse_value(lx) {
            Ok(e) => e,
            Err(e) => {
                return Err(e);
            },
        };
        let ghost q2 = lx.pos();
        assert(value_expr(s, r) == Ok::<(ExprV, int), Fault>((expr_v(idx), q2)));
        lx.skip_blanks();
        if lx.at(0) == 93 && lx.has_left() {
            lx.advance(1);
            Ok(Expr::ArrayAccessor(Box::new(var), Box::new(idx)))
        } else {
            Err(unexpected(lx))
        }
    } else {
        Ok(var)
    }
}

/// A number, negative when `negative`, with a unit (`%` or letters) if one follows.
fn parse_number(lx: &mut Lexer, negative: bool) -> (r: Result<Expr, Error>)
    requires
        old(lx).wf(),
        is_digit(old(lx).byte_ahead(0)),
    ensures
        steps(*old(lx), *final(lx)),
        r is Ok ==> final(lx).pos() > old(lx).pos(),
        reads_expr(r, number_expr(old(lx).bytes(), old(lx).pos(), negative), *final(lx)),
{
    let n = match lx.try_number() {
        Ok(Some(n)) => n,
        Ok(None) => {
            return Err(unexpected(lx));
        },
        Err(e) => {
            return Err(e);
        },
    };
    let v = if negative { -n } else { n };
    if lx.at(0) == 37 && lx.has_left() {
        let unit = lx.take(1);
        proof { assert(unit@ =~= seq![37u8]); }
        Ok(Expr::Dimension(v, unit))
    } else {
        match lx.try_symbol() {
            Some(unit) => Ok(Expr::Dimension(v, unit)),
            None => Ok(Expr::Number(v)),
        }
    }
}

/// An interpolation opening with a `{...}` part; the `{` has been taken.
fn parse_piece_interpolation(lx: &mut Lexer) -> (r: Result<Expr, Error>)
    requires
        old(lx).wf(),
    ensures
        steps(*old(lx), *final(lx)),
        r is Ok ==> final(lx).pos() > old(lx).pos(),
        reads_expr(r, piece_interpolation(old(lx).bytes(), old(lx).pos()), *final(lx)),
    decreases old(lx).bytes().len() - old(lx).pos(), 26nat,
{
    proof { unfold_piece_interpolation(lx.bytes(), lx.pos()); }
    let first = match parse_piece(lx) {
        Ok(e) => e,
        Err(e) => {
            return Err(e);
        },
    };
    parse_interpolation(lx, first)
}

fn empty_braces_ahead(lx: &Lexer) -> (r: bool)
    requires
        lx.wf(),
    ensures
        r == ({
            let b = blanks(lx.bytes(), lx.pos());
            b < lx.bytes().len() && lx.bytes()[b] == 125
        }),
{
    let n = lx.blank_len();
    lx.at(n) == 125 && n < lx.len_exec() - lx.pos_exec()
}

fn is_object_ahead(lx: &mut Lexer) -> (r: bool)
    requires
        old(lx).wf(),
    ensures
        final(lx).wf(),
        final(lx).bytes() == old(lx).bytes(),
        final(lx).pos() == old(lx).pos(),
        r == object_ahead(old(lx).bytes(), old(lx).pos()),
{
    let m = lx.mark();
    lx.skip_blanks();
    let r = match lx.try_symbol() {
        Some(_) => {
            lx.skip_blanks();
            lx.at(0) == 58 && lx.has_left()
        },
        None => false,
    };
    lx.reset(m);
    r
}

fn parse_hash(lx: &mut Lexer) -> (r: Result<Expr, Error>)
    requires
        old(lx).wf(),
        old(lx).byte_ahead(0) == 35,
    ensures
        steps(*old(lx), *final(lx)),
        r is Ok ==> final(lx).pos() > old(lx).pos(),
        reads_expr(r, hash_expr(old(lx).bytes(), old(lx).pos()), *final(lx)),
{
    match lx.try_hex() {
        Ok(Some(h)) => Ok(Expr::Hash(h)),
        Ok(None) => Err(unexpected(lx)),
        Err(e) => Err(e),
    }
}

fn parse_string(lx: &mut Lexer) -> (r: Result<Expr, Error>)
    requires
        old(lx).wf(),
        old(lx).byte_ahead(0) == 34 || old(lx).byte_ahead(0) == 39,
    ensures
        steps(*old(lx), *final(lx)),
        r is Ok ==> final(lx).pos() > old(lx).pos(),
        reads_expr(r, string_expr(old(lx).bytes(), old(lx).pos()), *final(lx)),
{
    match lx.try_string() {
        Ok(Some(t)) => Ok(Expr::Str(t)),
        Ok(None) => Err(unexpected(lx)),
        Err(e) => Err(e),
    }
}

/// After `(`.
fn parse_paren(lx: &mut Lexer) -> (r: Result<Expr, Error>)
    requires
        old(lx).wf(),
    ensures
        steps(*old(lx), *final(lx)),
        r is Ok ==> final(lx).pos() > old(lx).pos(),
        reads_expr(r, paren_expr(old(lx).bytes(), old(lx).pos()), *final(lx)),
    decreases old(lx).bytes().len() - old(lx).pos(), 26nat,
{
    proof { unfold_paren_expr(lx.bytes(), lx.pos()); }
    if empty_braces_or(lx, 41) {
        lx.skip_blanks();
        lx.advance(1);
        let es: Vec<Expr> = Vec::new();
        proof { assert(exprs_v(es@) =~= Seq::<ExprV>::empty()); }
        return Ok(Expr::Tuple(es));
    }
    lx.skip_blanks();
    let (mut items, trailing) = match parse_paren_items(lx) {
        Ok(x) => x,
        Err(e) => {
            return Err(e);
        },
    };
    proof { lemma_exprs_v(items@); }
    if items.len() == 1 && !trailing {
        Ok(items.pop().unwrap())
    } else {
        Ok(Expr::Tuple(items))
    }
}

/// Items separated by commas up to `)`, and whether a comma stood just before the `)`.
fn parse_paren_items(lx: &mut Lexer) -> (r: Result<(Vec<Expr>, bool), Error>)
    requires
        old(lx).wf(),
    ensures
        steps(*old(lx), *final(lx)),
        r is Ok ==> final(lx).pos() > old(lx).pos(),
        match paren_items(old(lx).bytes(), old(lx).pos()) {
            Ok((es, q, t)) => r matches Ok((v, b)) && exprs_v(v@) == es && b == t && final(lx).pos() == q,
            Err(f) => r matches Err(e) && e@ == f,
        },
    decreases old(lx).bytes().len() - old(lx).pos(), 24nat,
{
    proof { unfold_paren_items(lx.bytes(), lx.pos()); }
    let e = match parse_item(lx) {
        Ok(e) => e,
        Err(e) => {
            return Err(e);
        },
    };
    lx.skip_blanks();
    let mut one: Vec<Expr> = Vec::new();
    if lx.at(0) == 41 && lx.has_left() {
        lx.advance(1);
        proof { lemma_exprs_v_push(one@, e); }
        one.push(e);
        assert(exprs_v(Seq::<Expr>::empty()) =~= Seq::<ExprV>::empty());
        return Ok((one, false));
    }
    if !(lx.at(0) == 44 && lx.has_left()) {
        return Err(unexpected(lx));
    }
    lx.advance(1);
    lx.skip_blanks();
    if lx.at(0) == 41 && lx.has_left() {
        lx.advance(1);
        proof { lemma_exprs_v_push(one@, e); }
        one.push(e);
        assert(exprs_v(Seq::<Expr>::empty()) =~= Seq::<ExprV>::empty());
        return Ok((one, true));
    }
    let (mut rest, t) = match parse_paren_items(lx) {
        Ok(x) => x,
        Err(e) => {
            return Err(e);
        },
    };
    let ghost tail = rest@;
    proof { lemma_exprs_v_prepend(e, tail); }
    rest.insert(0, e);
    assert(rest@ =~= seq![e] + tail);
    Ok((rest, t))
}

fn empty_braces_or(lx: &Lexer, close: u8) -> (r: bool)
    requires
        lx.wf(),
    ensures
        r == ({
            let b = blanks(lx.bytes(), lx.pos());
            b < lx.bytes().len() && lx.bytes()[b] == close
        }),
{
    let n = lx.blank_len();
    lx.at(n) == close && n < lx.len_exec() - lx.pos_exec()
}

/// A keyword, function call, or interpolation opening with a keyword.
fn parse_word(lx: &mut Lexer) -> (r: Result<Expr, Error>)
    requires
        old(lx).wf(),
        keyword_start(old(lx).byte_ahead(0)),
    ensures
        steps(*old(lx), *final(lx)),
        r is Ok ==> final(lx).pos() > old(lx).pos(),
        reads_expr(r, word_expr(old(lx).bytes(), old(lx).pos()), *final(lx)),
    decreases old(lx).bytes().len() - old(lx).pos(), 19nat,
{
    proof { unfold_word_expr(lx.bytes(), lx.pos()); }
    let at = lx.position();
    let n = lx.keyword_len();
    let word = lx.take(n);
    if lx.at(0) == 40 && lx.has_left() {
        lx.advance(1);
        match parse_list(lx, 41) {
            Ok(args) => Ok(Expr::FunctionCall(word, args, at)),
            Err(e) => Err(e),
        }
    } else if lx.at(0) == 123 && lx.has_left() {
        parse_interpolation(lx, Expr::Keyword(word))
    } else {
        Ok(Expr::Keyword(word))
    }
}

/// One atom of an expression.
fn parse_atom(lx: &mut Lexer) -> (r: Result<Expr, Error>)
    requires
        old(lx).wf(),
    ensures
        steps(*old(lx), *final(lx)),
        r is Ok ==> final(lx).pos() > old(lx).pos(),
        reads_expr(r, atom_expr(old(lx).bytes(), old(lx).pos()), *final(lx)),
    decreases old(lx).bytes().len() - old(lx).pos(), 20nat,
{
    proof { unfold_atom_expr(lx.bytes(), lx.pos()); }
    let ghost s = lx.bytes();
    if !lx.has_left() {
        return Err(unexpected(lx));
    }
    let c = lx.at(0);
    if c == 36 {
        parse_variable(lx)
    } else if c == 35 {
        parse_hash(lx)
    } else if 48 <= c && c <= 57 {
        parse_number(lx, false)
    } else if c == 45 && 48 <= lx.at(1) && lx.at(1) <= 57 {
        lx.advance(1);
        parse_number(lx, true)
    } else if c == 34 || c == 39 {
        parse_string(lx)
    } else if c == 40 {
        lx.advance(1);
        parse_paren(lx)
    } else if c == 91 {
        lx.advance(1);
        match parse_list(lx, 93) {
            Ok(items) => Ok(Expr::Array(items)),
            Err(e) => Err(e),
        }
    } else if c == 123 {
        lx.advance(1);
        parse_brace(lx)
    } else if is_keyword_start(c) {
        parse_word(lx)
    } else {
        Err(unexpected(lx))
    }
}

/// Skips lines that hold nothing but spaces, tabs and `//` comments.
fn skip_blank_lines(lx: &mut Lexer)
    requires
        old(lx).wf(),
    ensures
        steps(*old(lx), *final(lx)),
        final(lx).pos() == skip_blank(old(lx).bytes(), old(lx).pos()),
{
    let ghost s = lx.bytes();
    let ghost p = lx.pos();
    loop
        invariant
            steps(*old(lx), *lx),
            s == old(lx).bytes(),
            p == old(lx).pos(),
            skip_blank(s, p) == skip_blank(s, lx.pos()),
        ensures
            steps(*old(lx), *lx),
            skip_blank(s, p) == lx.pos(),
        decreases lx.bytes().len() - lx.pos(),
    {
        let before = lx.pos_exec();
        if !lx.has_left() || !lx.try_line_end() {
            break;
        }
        if lx.pos_exec() == before {
            break;
        }
    }
}

fn is_statement_start(lx: &Lexer) -> (r: bool)
    requires
        lx.wf(),
    ensures
        r == statement_start(lx.bytes(), lx.pos()),
{
    let t = lx.at(6);
    let f = lx.at(3);
    lx.has_left() && (lx.at(0) == 36
        || (lx.at(0) == 102 && lx.at(1) == 111 && lx.at(2) == 114 && (f == 32 || f == 9))
        || (lx.at(0) == 114 && lx.at(1) == 101 && lx.at(2) == 116 && lx.at(3) == 117 && lx.at(4) == 114
            && lx.at(5) == 110 && (t == 32 || t == 9)))
}

fn expect_line_end(lx: &mut Lexer) -> (r: Result<(), Error>)
    requires
        old(lx).wf(),
    ensures
        steps(*old(lx), *final(lx)),
        match line_end(old(lx).bytes(), old(lx).pos()) {
            Some(q) => r is Ok && final(lx).pos() == q,
            None => r matches Err(e) && e@ == unexpected_at(old(lx).bytes(), old(lx).pos()),
        },
{
    if lx.try_line_end() {
        Ok(())
    } else {
        Err(unexpected(lx))
    }
}

/// A value, then the end of its line.
fn parse_value_line(lx: &mut Lexer) -> (r: Result<Expr, Error>)
    requires
        old(lx).wf(),
    ensures
        steps(*old(lx), *final(lx)),
        reads_expr(r, value_line(old(lx).bytes(), old(lx).pos()), *final(lx)),
{
    proof { unfold_value_line(lx.bytes(), lx.pos()); }
    let e = match parse_value(lx) {
        Ok(e) => e,
        Err(e) => {
            return Err(e);
        },
    };
    match expect_line_end(lx) {
        Ok(()) => Ok(e),
        Err(x) => Err(x),
    }
}

/// A statement: `$name = value`, `return value`, or `for $name in value`
/// with its body one level deeper.
fn parse_statement(lx: &mut Lexer, indent: usize) -> (r: Result<Line, Error>)
    requires
        old(lx).wf(),
        statement_start(old(lx).bytes(), old(lx).pos()),
        indent <= old(lx).pos(),
    ensures
        steps(*old(lx), *final(lx)),
        r is Ok ==> final(lx).pos() > old(lx).pos(),
        match statement(old(lx).bytes(), old(lx).pos(), indent as int) {
            Ok((l, q)) => r matches Ok(x) && line_v(x) == l && final(lx).pos() == q,
            Err(f) => r matches Err(e) && e@ == f,
        },
    decreases old(lx).bytes().len() - old(lx).pos(), 1nat,
{
    proof { unfold_statement(lx.bytes(), lx.pos(), indent as int); }
    if lx.at(0) == 36 {
        lx.advance(1);
        let name = match lx.try_symbol() {
            Some(n) => n,
            None => {
                return Err(unexpected(lx));
            },
        };
        lx.skip_blanks();
        if !(lx.at(0) == 61 && lx.has_left()) {
            return Err(unexpected(lx));
        }
        lx.advance(1);
        lx.skip_blanks();
        match parse_value_line(lx) {
            Ok(e) => Ok(Line::VarDef(name, e)),
            Err(e) => Err(e),
        }
    } else if lx.at(0) == 114 && lx.at(1) == 101 {
        lx.advance(6);
        lx.skip_blanks();
        match parse_value_line(lx) {
            Ok(e) => Ok(Line::Return(e)),
            Err(e) => Err(e),
        }
    } else {
        lx.advance(3);
        lx.skip_blanks();
        if !(lx.at(0) == 36 && lx.has_left()) {
            return Err(unexpected(lx));
        }
        lx.advance(1);
        let name = match lx.try_symbol() {
            Some(n) => n,
            None => {
                return Err(unexpected(lx));
            },
        };
        lx.skip_blanks();
        if !(lx.at(0) == 105 && lx.at(1) == 110) {
            return Err(unexpected(lx));
        }
        lx.advance(2);
        lx.skip_blanks();
        let e = match parse_value_line(lx) {
            Ok(e) => e,
            Err(e) => {
                return Err(e);
            },
        };
        match parse_lines(lx, indent + 1) {
            Ok(body) => Ok(Line::ForLoop(name, e, body)),
            Err(e) => Err(e),
        }
    }
}

/// Statements at `indent`, up to the first line indented otherwise.
fn parse_lines(lx: &mut Lexer, indent: usize) -> (r: Result<Vec<Line>, Error>)
    requires
        old(lx).wf(),
        indent <= old(lx).pos(),
    ensures
        steps(*old(lx), *final(lx)),
        match lines_block(old(lx).bytes(), old(lx).pos(), indent as int) {
            Ok((ls, q)) => r matches Ok(v) && lines_v(v@) == ls && final(lx).pos() == q,
            Err(f) => r matches Err(e) && e@ == f,
        },
    decreases old(lx).bytes().len() - old(lx).pos(), 2nat,
{
    proof { unfold_lines_block(lx.bytes(), lx.pos(), indent as int); }
    skip_blank_lines(lx);
    if !lx.has_left() || !lx.try_indent(indent) {
        let v: Vec<Line> = Vec::new();
        assert(lines_v(v@) =~= Seq::<LineV>::empty());
        return Ok(v);
    }
    if !is_statement_start(lx) {
        return Err(unexpected(lx));
    }
    let l = match parse_statement(lx, indent) {
        Ok(l) => l,
        Err(e) => {
            return Err(e);
        },
    };
    let mut rest = match parse_lines(lx, indent) {
        Ok(v) => v,
        Err(e) => {
            return Err(e);
        },
    };
    let ghost tail = rest@;
    proof { lemma_lines_v_prepend(l, tail); }
    rest.insert(0, l);
    assert(rest@ =~= seq![l] + tail);
    Ok(rest)
}

/// Selectors separated by commas, up to the end of the line, which is taken too.
fn read_selectors(lx: &mut Lexer) -> (r: Result<Vec<Vec<u8>>, Error>)
    requires
        old(lx).wf(),
    ensures
        steps(*old(lx), *final(lx)),
        r is Ok ==> final(lx).pos() > old(lx).pos(),
        match selector_list(old(lx).bytes(), old(lx).pos()) {
            Ok((xs, q)) => r matches Ok(v) && texts(v@) == xs && final(lx).pos() == q,
            Err(f) => r matches Err(e) && e@ == f,
        },
    decreases old(lx).bytes().len() - old(lx).pos(),
{
    let ghost s = lx.bytes();
    let ghost p = lx.pos();
    lx.skip_blanks();
    let ghost r = lx.pos();
    let mut n: usize = 0;
    let mut last: usize = 0;
    while lx.pos_exec() + n < lx.len_exec() && lx.at(n) != 44 && lx.at(n) != 10 && lx.at(n) != 13
        && !(lx.at(n) == 47 && lx.at(n + 1) == 47)
        invariant
            lx.wf(),
            lx.bytes() == s,
            lx.pos() == r,
            r + n <= s.len(),
            last <= n,
            selector_stop(s, r) == selector_stop(s, r + n),
            r + last == trim_back(s, r, r + n),
        decreases s.len() - r - n,
    {
        if lx.at(n) != 32 && lx.at(n) != 9 {
            last = n + 1;
        }
        n += 1;
    }
    if last == 0 {
        return Err(unexpected(lx));
    }
    let sel = lx.take(last);
    lx.skip_blanks();
    if lx.at(0) == 44 && lx.has_left() {
        lx.advance(1);
        let mut rest = match read_selectors(lx) {
            Ok(v) => v,
            Err(e) => {
                return Err(e);
            },
        };
        let ghost tail = rest@;
        let ghost sv = sel@;
        rest.insert(0, sel);
        assert(rest@ =~= seq![sel] + tail);
        assert(texts(rest@) =~= seq![sv] + texts(tail));
        Ok(rest)
    } else {
        match expect_line_end(lx) {
            Ok(()) => {
                let mut v: Vec<Vec<u8>> = Vec::new();
                let ghost sv = sel@;
                v.push(sel);
                assert(texts(v@) =~= seq![sv]);
                Ok(v)
            },
            Err(e) => Err(e),
        }
    }
}

/// A member of a block.
enum Member {
    Prop(Property),
    Nested(Selector),
}

spec fn member_v(m: Member) -> MemberV {
    match m {
        Member::Prop(p) => MemberV::Prop(prop_v(p)),
        Member::Nested(x) => MemberV::Nested(sel_v(x)),
    }
}

/// A property `name: value` or a mixin call `name(args)`, if the line is one;
/// `None`, having taken nothing, if it is not.
fn parse_property(lx: &mut Lexer) -> (r: Result<Option<Property>, Error>)
    requires
        old(lx).wf(),
    ensures
        steps(*old(lx), *final(lx)),
        r matches Ok(Some(_)) ==> final(lx).pos() > old(lx).pos(),
        match property_at(old(lx).bytes(), old(lx).pos()) {
            None => r matches Ok(None) && final(lx).pos() == old(lx).pos(),
            Some(Ok((pr, q))) => r matches Ok(Some(x)) && prop_v(x) == pr && final(lx).pos() == q,
            Some(Err(f)) => r matches Err(e) && e@ == f,
        },
{
    proof { unfold_property_at(lx.bytes(), lx.pos()); }
    let m = lx.mark();
    let n = lx.keyword_len();
    if n == 0 {
        return Ok(None);
    }
    let name = lx.take(n);
    if lx.at(0) == 40 && lx.has_left() {
        lx.advance(1);
        let mut args = match parse_list(lx, 41) {
            Ok(a) => a,
            Err(e) => {
                return Err(e);
            },
        };
        if lx.try_line_end() {
            proof { lemma_exprs_v(args@); }
            let expr = if args.len() == 1 { args.pop().unwrap() } else { Expr::Tuple(args) };
            return Ok(Some(Property { name, expr }));
        }
        lx.reset(m);
        Ok(None)
    } else if lx.at(0) == 58 && lx.has_left() && (lx.at(1) == 32 || lx.at(1) == 9) {
        lx.advance(1);
        lx.skip_blanks();
        match parse_value_line(lx) {
            Ok(expr) => Ok(Some(Property { name, expr })),
            Err(e) => Err(e),
        }
    } else {
        lx.reset(m);
        Ok(None)
    }
}

/// A property, a mixin call, or a nested selector block.
fn parse_member(lx: &mut Lexer, indent: usize, allow_nested: bool) -> (r: Result<Member, Error>)
    requires
        old(lx).wf(),
        indent <= old(lx).pos(),
    ensures
        steps(*old(lx), *final(lx)),
        r is Ok ==> final(lx).pos() > old(lx).pos(),
        match member(old(lx).bytes(), old(lx).pos(), indent as int, allow_nested) {
            Ok((m, q)) => r matches Ok(x) && member_v(x) == m && final(lx).pos() == q,
            Err(f) => r matches Err(e) && e@ == f,
        },
    decreases old(lx).bytes().len() - old(lx).pos(), 3nat,
{
    proof { unfold_member(lx.bytes(), lx.pos(), indent as int, allow_nested); }
    match parse_property(lx) {
        Ok(Some(p)) => {
            return Ok(Member::Prop(p));
        },
        Ok(None) => {},
        Err(e) => {
            return Err(e);
        },
    }
    if !allow_nested {
        return Err(unexpected(lx));
    }
    let sels = match read_selectors(lx) {
        Ok(s) => s,
        Err(e) => {
            return Err(e);
        },
    };
    match parse_block(lx, indent + 1, true, false) {
        Ok((lines, props, nested)) => Ok(Member::Nested(Selector { sels, lines, props, nested })),
        Err(e) => Err(e),
    }
}

/// The statements, properties and nested blocks at `indent`, up to the first
/// line indented otherwise; once a member has been read (`seen`), a statement is an error.
fn parse_block(lx: &mut Lexer, indent: usize, allow_nested: bool, seen: bool) -> (r: Result<(Vec<Line>, Vec<Property>, Vec<Selector>), Error>)
    requires
        old(lx).wf(),
        indent <= old(lx).pos(),
    ensures
        steps(*old(lx), *final(lx)),
        match block(old(lx).bytes(), old(lx).pos(), indent as int, allow_nested, seen) {
            Ok((ls, ps, ns, q)) => r matches Ok((l, p, n)) && lines_v(l@) == ls && props_v(p@) == ps
                && sels_v(n@) == ns && final(lx).pos() == q,
            Err(f) => r matches Err(e) && e@ == f,
        },
    decreases old(lx).bytes().len() - old(lx).pos(), 4nat,
{
    proof { unfold_block(lx.bytes(), lx.pos(), indent as int, allow_nested, seen); }
    skip_blank_lines(lx);
    if !lx.has_left() || !lx.try_indent(indent) {
        let l: Vec<Line> = Vec::new();
        let p: Vec<Property> = Vec::new();
        let n: Vec<Selector> = Vec::new();
        assert(lines_v(l@) =~= Seq::<LineV>::empty());
        assert(props_v(p@) =~= Seq::<PropertyV>::empty());
        assert(sels_v(n@) =~= Seq::<SelectorV>::empty());
        return Ok((l, p, n));
    }
    if is_statement_start(lx) {
        if seen {
            return Err(unexpected(lx));
        }
        let l = match parse_statement(lx, indent) {
            Ok(l) => l,
            Err(e) => {
                return Err(e);
            },
        };
        let (mut lines, props, nested) = match parse_block(lx, indent, allow_nested, false) {
            Ok(x) => x,
            Err(e) => {
                return Err(e);
            },
        };
        let ghost tail = lines@;
        proof { lemma_lines_v_prepend(l, tail); }
        lines.insert(0, l);
        assert(lines@ =~= seq![l] + tail);
        Ok((lines, props, nested))
    } else {
        let m = match parse_member(lx, indent, allow_nested) {
            Ok(m) => m,
            Err(e) => {
                return Err(e);
            },
        };
        let (lines, mut props, mut nested) = match parse_block(lx, indent, allow_nested, true) {
            Ok(x) => x,
            Err(e) => {
                return Err(e);
            },
        };
        match m {
            Member::Prop(p) => {
                let ghost tail = props@;
                let ghost pv = prop_v(p);
                props.insert(0, p);
                assert(props@ =~= seq![p] + tail);
                assert(props_v(props@) =~= seq![pv] + props_v(tail));
            },
            Member::Nested(x) => {
                let ghost tail = nested@;
                proof { lemma_sels_v_prepend(x, tail); }
                nested.insert(0, x);
                assert(nested@ =~= seq![x] + tail);
            },
        }
        Ok((lines, props, nested))
    }
}

/// Parameter names separated by commas up to `)`.
fn parse_param_items(lx: &mut Lexer) -> (r: Result<Vec<Vec<u8>>, Error>)
    requires
        old(lx).wf(),
    ensures
        steps(*old(lx), *final(lx)),
        match param_items(old(lx).bytes(), old(lx).pos()) {
            Ok((xs, q)) => r matches Ok(v) && texts(v@) == xs && final(lx).pos() == q,
            Err(f) => r matches Err(e) && e@ == f,
        },
    decreases old(lx).bytes().len() - old(lx).pos(),
{
    lx.skip_blanks();
    let name = match lx.try_symbol() {
        Some(p) => p,
        None => {
            return Err(unexpected(lx));
        },
    };
    lx.skip_blanks();
    if lx.at(0) == 41 && lx.has_left() {
        lx.advance(1);
        let mut v: Vec<Vec<u8>> = Vec::new();
        let ghost nv = name@;
        v.push(name);
        assert(texts(v@) =~= seq![nv]);
        return Ok(v);
    }
    if !(lx.at(0) == 44 && lx.has_left()) {
        return Err(unexpected(lx));
    }
    lx.advance(1);
    let mut rest = match parse_param_items(lx) {
        Ok(v) => v,
        Err(e) => {
            return Err(e);
        },
    };
    let ghost tail = rest@;
    let ghost nv = name@;
    rest.insert(0, name);
    assert(rest@ =~= seq![name] + tail);
    assert(texts(rest@) =~= seq![nv] + texts(tail));
    Ok(rest)
}

/// Parameter names up to `)`, the `(` taken.
fn parse_params(lx: &mut Lexer) -> (r: Result<Vec<Vec<u8>>, Error>)
    requires
        old(lx).wf(),
    ensures
        steps(*old(lx), *final(lx)),
        match param_list(old(lx).bytes(), old(lx).pos()) {
            Ok((xs, q)) => r matches Ok(v) && texts(v@) == xs && final(lx).pos() == q,
            Err(f) => r matches Err(e) && e@ == f,
        },
{
    let m = lx.mark();
    lx.skip_blanks();
    if lx.at(0) == 41 && lx.has_left() {
        lx.advance(1);
        let v: Vec<Vec<u8>> = Vec::new();
        assert(texts(v@) =~= Seq::<Seq<u8>>::empty());
        return Ok(v);
    }
    lx.reset(m);
    parse_param_items(lx)
}

/// Whether a `return` stands among the statements, or in the body of a loop among them.
fn has_return(lines: &Vec<Line>) -> (r: bool)
    ensures
        r == returns_in(lines_v(lines@)),
    decreases lines,
{
    let ghost all = lines_v(lines@);
    proof { lemma_lines_v(lines@); }
    let mut i: usize = 0;
    assert(all.subrange(0, all.len() as int) =~= all);
    while i < lines.len()
        invariant
            i <= lines@.len(),
            all == lines_v(lines@),
            all.len() == lines@.len(),
            forall|k: int| 0 <= k < lines@.len() ==> #[trigger] all[k] == line_v(lines@[k]),
            returns_in(all) == returns_in(all.subrange(i as int, all.len() as int)),
        decreases lines@.len() - i,
    {
        let ghost rest = all.subrange(i as int, all.len() as int);
        assert(rest[0] == line_v(lines@[i as int]));
        assert(rest.drop_first() =~= all.subrange(i + 1, all.len() as int));
        match &lines[i] {
            Line::Return(_) => {
                return true;
            },
            Line::ForLoop(_, _, body) => {
                if has_return(body) {
                    return true;
                }
            },
            _ => {},
        }
        i += 1;
    }
    assert(all.subrange(i as int, all.len() as int) =~= Seq::<LineV>::empty());
    false
}

/// `/* ... */` from the position on, the rest of its line taken too.
fn parse_comment(lx: &mut Lexer) -> (r: Result<Vec<u8>, Error>)
    requires
        old(lx).wf(),
        old(lx).byte_ahead(1) == 42,
    ensures
        steps(*old(lx), *final(lx)),
        r is Ok ==> final(lx).pos() > old(lx).pos(),
        match comment_at(old(lx).bytes(), old(lx).pos()) {
            Ok((t, q)) => r matches Ok(v) && v@ == t && final(lx).pos() == q,
            Err(f) => r matches Err(e) && e@ == f,
        },
{
    let ghost s = lx.bytes();
    let ghost p = lx.pos();
    let mut n: usize = 2;
    while lx.pos_exec() + n + 1 < lx.len_exec() && !(lx.at(n) == 42 && lx.at(n + 1) == 47)
        invariant
            lx.wf(),
            lx.bytes() == s,
            lx.pos() == p,
            2 <= n,
            lx.pos() + n <= lx.bytes().len(),
            comment_close(s, p + 2) == comment_close(s, p + n),
        decreases lx.bytes().len() - lx.pos() - n,
    {
        n += 1;
    }
    if !(lx.pos_exec() + n + 1 < lx.len_exec()) {
        return Err(Error::bare(ErrorKind::UnclosedComment, Some(lx.position())));
    }
    let text = lx.take(n + 2);
    match expect_line_end(lx) {
        Ok(()) => Ok(text),
        Err(e) => Err(e),
    }
}

/// A top-level mixin or function declaration `name(params)` with its body,
/// or `None` (having taken nothing) when the line is something else.
fn parse_declaration(lx: &mut Lexer) -> (r: Result<Option<Node>, Error>)
    requires
        old(lx).wf(),
    ensures
        steps(*old(lx), *final(lx)),
        r matches Ok(Some(_)) ==> final(lx).pos() > old(lx).pos(),
        match declaration(old(lx).bytes(), old(lx).pos()) {
            None => r matches Ok(None) && final(lx).pos() == old(lx).pos(),
            Some(Ok((n, q))) => r matches Ok(Some(x)) && node_v(x) == n && final(lx).pos() == q,
            Some(Err(f)) => r matches Err(e) && e@ == f,
        },
{
    proof { unfold_declaration(lx.bytes(), lx.pos()); }
    let m = lx.mark();
    let name = match lx.try_symbol() {
        Some(n) => n,
        None => {
            return Ok(None);
        },
    };
    if !(lx.at(0) == 40 && lx.has_left()) {
        lx.reset(m);
        return Ok(None);
    }
    lx.advance(1);
    let params = match parse_params(lx) {
        Ok(p) => p,
        Err(_) => {
            lx.reset(m);
            return Ok(None);
        },
    };
    if !lx.try_line_end() {
        lx.reset(m);
        return Ok(None);
    }
    if has_repeat(&params) {
        let at = lx.position_of_mark(&m);
        return Err(Error::bare(ErrorKind::DuplicateParameter, Some(at)));
    }
    let (lines, props, _) = match parse_block(lx, 1, false, false) {
        Ok(x) => x,
        Err(e) => {
            return Err(e);
        },
    };
    if props.len() == 0 && has_return(&lines) {
        Ok(Some(Node::Function(Function { name, params, lines })))
    } else {
        Ok(Some(Node::Mixin(Mixin { name, params, lines, props })))
    }
}

/// Whether a name stands twice among `names`.
fn has_repeat(names: &Vec<Vec<u8>>) -> (r: bool)
    ensures
        r == !distinct(texts(names@)),
{
    let ghost tv = texts(names@);
    let mut j: usize = 0;
    while j < names.len()
        invariant
            j <= names@.len(),
            tv == texts(names@),
            forall|a: int, b: int| 0 <= a < b < j ==> tv[a] != tv[b],
        decreases names@.len() - j,
    {
        let mut i: usize = 0;
        while i < j
            invariant
                i <= j < names@.len(),
                tv == texts(names@),
                forall|a: int| 0 <= a < i ==> tv[a] != tv[j as int],
            decreases j - i,
        {
            if crate::generator::bytes_eq(&names[i], &names[j]) {
                assert(tv[i as int] == tv[j as int]);
                return true;
            }
            i += 1;
        }
        j += 1;
    }
    false
}

/// One top-level item, at a line that is not indented.
fn parse_top_item(lx: &mut Lexer) -> (r: Result<Node, Error>)
    requires
        old(lx).wf(),
        old(lx).pos() < old(lx).bytes().len(),
    ensures
        steps(*old(lx), *final(lx)),
        r is Ok ==> final(lx).pos() > old(lx).pos(),
        match top_item(old(lx).bytes(), old(lx).pos()) {
            Ok((n, q)) => r matches Ok(x) && node_v(x) == n && final(lx).pos() == q,
            Err(f) => r matches Err(e) && e@ == f,
        },
{
    proof {
        unfold_top_item(lx.bytes(), lx.pos());
        unfold_selector_node(lx.bytes(), lx.pos());
    }
    if lx.at(0) == 47 && lx.at(1) == 42 {
        match parse_comment(lx) {
            Ok(t) => Ok(Node::Comment(t)),
            Err(e) => Err(e),
        }
    } else if is_statement_start(lx) {
        match parse_statement(lx, 0) {
            Ok(l) => Ok(Node::Line(l)),
            Err(e) => Err(e),
        }
    } else {
        match parse_declaration(lx) {
            Ok(Some(n)) => Ok(n),
            Ok(None) => {
                let sels = match read_selectors(lx) {
                    Ok(s) => s,
                    Err(e) => {
                        return Err(e);
                    },
                };
                match parse_block(lx, 1, true, false) {
                    Ok((lines, props, nested)) => Ok(Node::Selector(Selector { sels, lines, props, nested })),
                    Err(e) => Err(e),
                }
            },
            Err(e) => Err(e),
        }
    }
}

/// Reads a stylesheet: comments, statements, mixin and function declarations
/// and selector blocks, then an end marker.
pub fn parse(source: &[u8]) -> (r: Result<Vec<Node>, Error>)
    requires
        source@.len() < usize::MAX,
    ensures
        match stylesheet(source@, 0) {
            Ok(t) => r matches Ok(nodes) && nodes_v(nodes@) == t,
            Err(f) => r matches Err(e) && e@ == f,
        },
{
    let ghost s = source@;
    let mut lx = Lexer::new(source);
    let mut nodes: Vec<Node> = Vec::new();
    proof {
        match stylesheet(s, 0) {
            Ok(t) => { assert(nodes_v(nodes@) + t =~= t); },
            Err(_) => {},
        }
    }
    loop
        invariant
            lx.wf(),
            lx.bytes() == s,
            s == source@,
            stylesheet(s, 0) == match stylesheet(s, lx.pos()) {
                Ok(t) => Ok(nodes_v(nodes@) + t),
                Err(e) => Err::<Seq<NodeV>, Fault>(e),
            },
        decreases lx.bytes().len() - lx.pos(),
    {
        let ghost p = lx.pos();
        proof { unfold_stylesheet(s, p); }
        skip_blank_lines(&mut lx);
        if !lx.has_left() {
            let ghost before = nodes_v(nodes@);
            nodes.push(Node::EOI);
            assert(nodes_v(nodes@) =~= before + seq![NodeV::EOI]);
            return Ok(nodes);
        }
        let c = lx.at(0);
        if c == 32 || c == 9 {
            return Err(unexpected(&lx));
        }
        let n = match parse_top_item(&mut lx) {
            Ok(n) => n,
            Err(e) => {
                return Err(e);
            },
        };
        let ghost before = nodes_v(nodes@);
        let ghost nv = node_v(n);
        nodes.push(n);
        proof {
            assert(nodes_v(nodes@) =~= before.push(nv));
            match stylesheet(s, lx.pos()) {
                Ok(t) => { assert(before + (seq![nv] + t) =~= nodes_v(nodes@) + t); },
                Err(_) => {},
            }
        }
    }
}

} // verus!
