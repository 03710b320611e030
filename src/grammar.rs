//! Pieces of the grammar of glaze, as spec functions on the source bytes.
//! Each takes the input and a position, and gives what stands there and
//! where reading goes on, or the error.
use vstd::prelude::*;
use crate::error::ErrorKind;
use crate::lexer::{
    blank_run, comment_close, string_body, digit_run, hex_run, is_alpha, is_blank, is_digit, line_end, number_at, op_at, place,
    run, space_runs, symbol_run, tab_run, trailing_dot,
};
use crate::nodes::{ExprV, LineV, NodeV, Op, PropertyV, SelectorV};
use crate::semantics::{fault, Fault};

verus! {

pub open spec fn byte(s: Seq<u8>, p: int) -> u8 {
    if 0 <= p < s.len() { s[p] } else { 0 }
}

/// The error for a byte that nothing in the grammar expects at `p`.
pub open spec fn unexpected_at(s: Seq<u8>, p: int) -> Fault {
    fault(ErrorKind::UnexpectedSymbol, Seq::empty(), Some(place(s, p)))
}

/// A number at `p` (a digit stands there), with a unit if one follows.

pub open spec fn number_expr(s: Seq<u8>, p: int, negative: bool) -> Result<(ExprV, int), Fault> {
    let (len, v) = number_at(s, p);
    if trailing_dot(s, p) {
        Err(fault(ErrorKind::TrailingDot, Seq::empty(), Some(place(s, p + digit_run(s, p) + 1))))
    } else if v > 0x7fff_ffff_ffff_ffff {
        Err(fault(ErrorKind::NumberOutOfRange, Seq::empty(), Some(place(s, p))))
    } else {
        let q = p + len;
        let val = if negative { -v } else { v };
        if q < s.len() && s[q] == 37 {
            Ok((ExprV::Dimension(val, seq![37u8]), q + 1))
        } else if is_alpha(byte(s, q)) {
            let n = symbol_run(s, q) as int;
            Ok((ExprV::Dimension(val, s.subrange(q, q + n)), q + n))
        } else {
            Ok((ExprV::Number(val), q))
        }
    }
}

/// `#` and hex digits; `#` stands at `p`.
pub open spec fn hash_expr(s: Seq<u8>, p: int) -> Result<(ExprV, int), Fault> {
    let n = hex_run(s, p + 1) as int;
    if n == 0 {
        Err(fault(ErrorKind::ExpectedHex, Seq::empty(), Some(place(s, p + 1))))
    } else {
        Ok((ExprV::Hash(s.subrange(p + 1, p + 1 + n)), p + 1 + n))
    }
}

/// A quoted string; its quote stands at `p`.
pub open spec fn string_expr(s: Seq<u8>, p: int) -> Result<(ExprV, int), Fault> {
    match string_body(s, p + 1, s[p]) {
        Some((t, k)) => Ok((ExprV::Str(t), k + 1)),
        None => Err(fault(ErrorKind::UnclosedString, Seq::empty(), Some(place(s, p)))),
    }
}

/// Past the spaces and tabs at `p`.
pub open spec fn blanks(s: Seq<u8>, p: int) -> int {
    p + blank_run(s, p)
}

/// Where the text of a selector that starts at `k` stops: at `,`, a line break, `//`, or the end.
pub open spec fn selector_stop(s: Seq<u8>, k: int) -> int
    decreases s.len() - k,
{
    if k < 0 || k >= s.len() {
        s.len() as int
    } else if s[k] == 44 || s[k] == 10 || s[k] == 13 || (s[k] == 47 && byte(s, k + 1) == 47) {
        k
    } else {
        selector_stop(s, k + 1)
    }
}

/// `e` moved back over spaces and tabs, but not before `r`.
pub open spec fn trim_back(s: Seq<u8>, r: int, e: int) -> int
    decreases e - r,
{
    if e <= r {
        r
    } else if is_blank(s[e - 1]) {
        trim_back(s, r, e - 1)
    } else {
        e
    }
}

/// Selectors separated by commas from `p` to the end of the line, and where the next line begins.
pub open spec fn selector_list(s: Seq<u8>, p: int) -> Result<(Seq<Seq<u8>>, int), Fault>
    decreases s.len() - p,
{
    let r = blanks(s, p);
    let t = trim_back(s, r, selector_stop(s, r));
    if t <= r {
        Err(unexpected_at(s, r))
    } else {
        let q = blanks(s, t);
        if q < s.len() && s[q] == 44 {
            if q + 1 <= p || q + 1 > s.len() {
                Err(unexpected_at(s, q))
            } else {
                match selector_list(s, q + 1) {
                    Ok((xs, q2)) => Ok((seq![s.subrange(r, t)] + xs, q2)),
                    Err(e) => Err(e),
                }
            }
        } else {
            match line_end(s, q) {
                Some(q2) => Ok((seq![s.subrange(r, t)], q2)),
                None => Err(unexpected_at(s, q)),
            }
        }
    }
}

/// Parameter names separated by commas from `k` up to `)`.
pub open spec fn param_items(s: Seq<u8>, k: int) -> Result<(Seq<Seq<u8>>, int), Fault>
    decreases s.len() - k,
{
    let r = blanks(s, k);
    if !is_alpha(byte(s, r)) {
        Err(unexpected_at(s, r))
    } else {
        let n = symbol_run(s, r) as int;
        let q = blanks(s, r + n);
        if q < s.len() && s[q] == 41 {
            Ok((seq![s.subrange(r, r + n)], q + 1))
        } else if q < s.len() && s[q] == 44 {
            if q + 1 <= k || q + 1 > s.len() {
                Err(unexpected_at(s, q))
            } else {
                match param_items(s, q + 1) {
                    Ok((xs, q2)) => Ok((seq![s.subrange(r, r + n)] + xs, q2)),
                    Err(e) => Err(e),
                }
            }
        } else {
            Err(unexpected_at(s, q))
        }
    }
}

/// A parameter list after `(`: empty, or names separated by commas, up to `)`.
pub open spec fn param_list(s: Seq<u8>, p: int) -> Result<(Seq<Seq<u8>>, int), Fault> {
    let r = blanks(s, p);
    if r < s.len() && s[r] == 41 {
        Ok((Seq::empty(), r + 1))
    } else {
        param_items(s, p)
    }
}

/// A `/* ... */` comment at `p`, with its delimiters, and nothing but a line end after it.
pub open spec fn comment_at(s: Seq<u8>, p: int) -> Result<(Seq<u8>, int), Fault> {
    match comment_close(s, p + 2) {
        None => Err(fault(ErrorKind::UnclosedComment, Seq::empty(), Some(place(s, p)))),
        Some(k) => match line_end(s, k + 2) {
            Some(q) => Ok((s.subrange(p, k + 2), q)),
            None => Err(unexpected_at(s, k + 2)),
        },
    }
}

/// What ends a value: a line end, a comment, `,`, `)`, `]` or `}`.
pub open spec fn ends_value(s: Seq<u8>, r: int) -> bool {
    let c = byte(s, r);
    c == 44 || c == 41 || c == 93 || c == 125 || r >= s.len() || c == 10 || c == 13 || (c == 47 && byte(s, r + 1) == 47)
}

/// `q` is not a step forward from `p` within the input.
pub open spec fn stalls(s: Seq<u8>, p: int, q: int) -> bool {
    q <= p || q > s.len()
}

pub open spec fn keyword_start(c: u8) -> bool {
    is_alpha(c) || c == 95 || c == 45 || c == 33
}

/// A binary operator after spaces at `q`, and where its right operand may begin.
pub open spec fn binop(s: Seq<u8>, q: int) -> Option<(Op, int)> {
    let n = blank_run(s, q) as int;
    match op_at(s, q + n) {
        Some((op, len)) => if op == Op::Range || op == Op::RangeInclusive || (q + n + len < s.len() && is_blank(s[q + n + len])) {
            Some((op, q + n + len))
        } else {
            None
        },
        None => None,
    }
}

/// `.field` after `.field` from `k` on.

pub open spec fn field_chain(s: Seq<u8>, k: int) -> Result<(Seq<Seq<u8>>, int), Fault>
    decreases s.len() - k,
{
    if 0 <= k < s.len() && s[k] == 46 && byte(s, k + 1) != 46 {
        if !is_alpha(byte(s, k + 1)) {
            Err(unexpected_at(s, k + 1))
        } else {
            let n = symbol_run(s, k + 1) as int;
            if stalls(s, k, k + 1 + n) {
                Err(unexpected_at(s, k + 1))
            } else {
                match field_chain(s, k + 1 + n) {
                    Ok((fs, q)) => Ok((seq![s.subrange(k + 1, k + 1 + n)] + fs, q)),
                    Err(e) => Err(e),
                }
            }
        }
    } else {
        Ok((Seq::empty(), k))
    }
}

/// `$name`, then `.field`s or one `[index]`; `$` stands at `p`.

pub closed spec fn variable_expr(s: Seq<u8>, p: int) -> Result<(ExprV, int), Fault>
    decreases s.len() - p, 19nat,
{
    let at = place(s, p);
    let p1 = p + 1;
    if !is_alpha(byte(s, p1)) {
        Err(unexpected_at(s, p1))
    } else {
        let n = symbol_run(s, p1) as int;
        let q = p1 + n;
        let var = ExprV::Variable(s.subrange(p1, q), at);
        if q < s.len() && s[q] == 46 && byte(s, q + 1) != 46 {
            match field_chain(s, q) {
                Ok((fs, q2)) => Ok((ExprV::ObjectAccessor(Box::new(var), fs), q2)),
                Err(e) => Err(e),
            }
        } else if q < s.len() && s[q] == 91 {
            let r = blanks(s, q + 1);
            if stalls(s, p, r) {
                Err(unexpected_at(s, r))
            } else {
                match value_expr(s, r) {
                    Ok((idx, q2)) => {
                        let q3 = blanks(s, q2);
                        if q3 < s.len() && s[q3] == 93 {
                            Ok((ExprV::ArrayAccessor(Box::new(var), Box::new(idx)), q3 + 1))
                        } else {
                            Err(unexpected_at(s, q3))
                        }
                    },
                    Err(e) => Err(e),
                }
            }
        } else {
            Ok((var, q))
        }
    }
}



/// Items separated by commas from `k` up to `)`, and whether the last comma stood just before the `)`.
pub closed spec fn paren_items(s: Seq<u8>, k: int) -> Result<(Seq<ExprV>, int, bool), Fault>
    decreases s.len() - k, 24nat,
{
    match item_expr(s, k) {
        Err(e) => Err(e),
        Ok((e, q)) => {
            let q2 = blanks(s, q);
            if q2 < s.len() && s[q2] == 41 {
                Ok((seq![e], q2 + 1, false))
            } else if q2 < s.len() && s[q2] == 44 {
                let r = blanks(s, q2 + 1);
                if r < s.len() && s[r] == 41 {
                    Ok((seq![e], r + 1, true))
                } else if stalls(s, k, r) {
                    Err(unexpected_at(s, r))
                } else {
                    match paren_items(s, r) {
                        Ok((es, q3, t)) => Ok((seq![e] + es, q3, t)),
                        Err(x) => Err(x),
                    }
                }
            } else {
                Err(unexpected_at(s, q2))
            }
        },
    }
}

/// After `(`: `()`, one item in parentheses, or a tuple of items. A trailing
/// comma makes a tuple even of one item.
pub closed spec fn paren_expr(s: Seq<u8>, p: int) -> Result<(ExprV, int), Fault>
    decreases s.len() - p, 26nat,
{
    let r = blanks(s, p);
    if r < s.len() && s[r] == 41 {
        Ok((ExprV::Tuple(Seq::empty()), r + 1))
    } else if r > s.len() {
        Err(unexpected_at(s, r))
    } else {
        match paren_items(s, r) {
            Ok((items, q, trailing)) => Ok((if items.len() == 1 && !trailing { items[0] } else { ExprV::Tuple(items) }, q)),
            Err(e) => Err(e),
        }
    }
}

/// A keyword, a function call, or an interpolation opening with a keyword; it begins at `p`.
pub closed spec fn word_expr(s: Seq<u8>, p: int) -> Result<(ExprV, int), Fault>
    decreases s.len() - p, 19nat,
{
    let n = run(s, p, 4) as int;
    let q = p + n;
    let word = s.subrange(p, q);
    if stalls(s, p, q) {
        Err(unexpected_at(s, p))
    } else if q < s.len() && s[q] == 40 {
        match list_expr(s, q + 1, 41) {
            Ok((args, q2)) => Ok((ExprV::FunctionCall(word, args, place(s, p)), q2)),
            Err(e) => Err(e),
        }
    } else if q < s.len() && s[q] == 123 {
        interpolation_expr(s, q, ExprV::Keyword(word))
    } else {
        Ok((ExprV::Keyword(word), q))
    }
}

/// Whether an object opens at `p` (after `{`): a name, then `:`.
pub open spec fn object_ahead(s: Seq<u8>, p: int) -> bool {
    let r = blanks(s, p);
    is_alpha(byte(s, r)) && ({
        let r2 = blanks(s, r + symbol_run(s, r));
        r2 < s.len() && s[r2] == 58
    })
}

/// One atom of an expression at `p`.

pub closed spec fn atom_expr(s: Seq<u8>, p: int) -> Result<(ExprV, int), Fault>
    decreases s.len() - p, 20nat,
{
    if p < 0 || p >= s.len() {
        Err(unexpected_at(s, p))
    } else {
        let c = s[p];
        if c == 36 {
            variable_expr(s, p)
        } else if c == 35 {
            hash_expr(s, p)
        } else if is_digit(c) {
            number_expr(s, p, false)
        } else if c == 45 && is_digit(byte(s, p + 1)) {
            number_expr(s, p + 1, true)
        } else if c == 34 || c == 39 {
            string_expr(s, p)
        } else if c == 40 {
            paren_expr(s, p + 1)
        } else if c == 91 {
            match list_expr(s, p + 1, 93) {
                Ok((items, q)) => Ok((ExprV::Array(items), q)),
                Err(e) => Err(e),
            }
        } else if c == 123 {
            brace_expr(s, p + 1)
        } else if keyword_start(c) {
            word_expr(s, p)
        } else {
            Err(unexpected_at(s, p))
        }
    }
}

/// An atom, or an atom, an operator and an item: operators group to the right.

pub closed spec fn item_expr(s: Seq<u8>, p: int) -> Result<(ExprV, int), Fault>
    decreases s.len() - p, 21nat,
{
    match atom_expr(s, p) {
        Err(e) => Err(e),
        Ok((a, q)) => match binop(s, q) {
            None => Ok((a, q)),
            Some((op, q2)) => {
                let r = blanks(s, q2);
                if r >= s.len() || s[r] == 10 || s[r] == 13 {
                    Ok((a, q))
                } else if stalls(s, p, r) {
                    Err(unexpected_at(s, r))
                } else {
                    match item_expr(s, r) {
                        Ok((b, q3)) => Ok((ExprV::Operation(op, Box::new(a), Box::new(b)), q3)),
                        Err(e) => Err(e),
                    }
                }
            },
        },
    }
}

/// Items separated by spaces, up to what ends a value.

pub closed spec fn value_items(s: Seq<u8>, p: int) -> Result<(Seq<ExprV>, int), Fault>
    decreases s.len() - p, 22nat,
{
    match item_expr(s, p) {
        Err(e) => Err(e),
        Ok((e, q)) => {
            let r = blanks(s, q);
            if ends_value(s, r) {
                Ok((seq![e], q))
            } else if stalls(s, p, r) {
                Err(unexpected_at(s, r))
            } else {
                match value_items(s, r) {
                    Ok((es, q2)) => Ok((seq![e] + es, q2)),
                    Err(x) => Err(x),
                }
            }
        },
    }
}

/// A value: one item, or a tuple of several.

pub closed spec fn value_expr(s: Seq<u8>, p: int) -> Result<(ExprV, int), Fault>
    decreases s.len() - p, 23nat,
{
    match value_items(s, p) {
        Ok((es, q)) => Ok((if es.len() == 1 { es[0] } else { ExprV::Tuple(es) }, q)),
        Err(e) => Err(e),
    }
}

/// Values separated by commas, up to `close`.

pub closed spec fn list_items(s: Seq<u8>, k: int, close: u8) -> Result<(Seq<ExprV>, int), Fault>
    decreases s.len() - k, 24nat,
{
    match value_expr(s, k) {
        Err(e) => Err(e),
        Ok((e, q)) => {
            let q2 = blanks(s, q);
            if q2 >= s.len() {
                Err(unexpected_at(s, q2))
            } else if s[q2] == close {
                Ok((seq![e], q2 + 1))
            } else if s[q2] != 44 {
                Err(unexpected_at(s, q2 + 1))
            } else {
                let r = blanks(s, q2 + 1);
                if stalls(s, k, r) {
                    Err(unexpected_at(s, r))
                } else {
                    match list_items(s, r, close) {
                        Ok((es, q3)) => Ok((seq![e] + es, q3)),
                        Err(x) => Err(x),
                    }
                }
            }
        },
    }
}

/// A list up to `close`, its opening taken.

pub closed spec fn list_expr(s: Seq<u8>, p: int, close: u8) -> Result<(Seq<ExprV>, int), Fault>
    decreases s.len() - p, 25nat,
{
    let r = blanks(s, p);
    if r < s.len() && s[r] == close {
        Ok((Seq::empty(), r + 1))
    } else if r > s.len() {
        Err(unexpected_at(s, r))
    } else {
        list_items(s, r, close)
    }
}

/// Inside `{...}` from `r` (past spaces): a bare name, which stands for the
/// variable of that name, or a value.
pub closed spec fn piece_inner(s: Seq<u8>, r: int) -> Result<(ExprV, int), Fault>
    decreases s.len() - r, 24nat,
{
    if is_alpha(byte(s, r)) && ({
        let r2 = blanks(s, r + symbol_run(s, r));
        r2 < s.len() && s[r2] == 125
    }) {
        let n = symbol_run(s, r) as int;
        Ok((ExprV::Variable(s.subrange(r, r + n), place(s, r)), blanks(s, r + n)))
    } else if r > s.len() {
        Err(unexpected_at(s, r))
    } else {
        value_expr(s, r)
    }
}

/// `{name}` or `{value}`, the `{` taken.
pub closed spec fn piece_expr(s: Seq<u8>, p: int) -> Result<(ExprV, int), Fault>
    decreases s.len() - p, 25nat,
{
    let r = blanks(s, p);
    if r > s.len() {
        Err(unexpected_at(s, r))
    } else {
        match piece_inner(s, r) {
            Err(e) => Err(e),
            Ok((e, q)) => {
                let q2 = blanks(s, q);
                if q2 < s.len() && s[q2] == 125 {
                    Ok((e, q2 + 1))
                } else {
                    Err(unexpected_at(s, q2))
                }
            },
        }
    }
}

/// Further parts of an interpolation from `k` on: `{...}` parts and runs of keyword bytes.

pub closed spec fn interpolation_parts(s: Seq<u8>, k: int) -> Result<(Seq<ExprV>, int), Fault>
    decreases s.len() - k, 26nat,
{
    if 0 <= k < s.len() && s[k] == 123 {
        match piece_expr(s, k + 1) {
            Err(e) => Err(e),
            Ok((e, q)) => if stalls(s, k, q) {
                Err(unexpected_at(s, q))
            } else {
                match interpolation_parts(s, q) {
                    Ok((es, q2)) => Ok((seq![e] + es, q2)),
                    Err(x) => Err(x),
                }
            },
        }
    } else {
        let n = run(s, k, 4) as int;
        if n <= 0 {
            Ok((Seq::empty(), k))
        } else if stalls(s, k, k + n) {
            Err(unexpected_at(s, k))
        } else {
            match interpolation_parts(s, k + n) {
                Ok((es, q2)) => Ok((seq![ExprV::Keyword(s.subrange(k, k + n))] + es, q2)),
                Err(x) => Err(x),
            }
        }
    }
}


pub closed spec fn interpolation_expr(s: Seq<u8>, p: int, first: ExprV) -> Result<(ExprV, int), Fault>
    decreases s.len() - p, 27nat,
{
    match interpolation_parts(s, p) {
        Ok((es, q)) => Ok((ExprV::Interpolation(seq![first] + es), q)),
        Err(e) => Err(e),
    }
}

/// One `name: value` field from `k` on: its name, its value, and where the value ends.
pub closed spec fn field_entry(s: Seq<u8>, k: int) -> Result<(Seq<u8>, ExprV, int), Fault>
    decreases s.len() - k, 25nat,
{
    let r = blanks(s, k);
    if !is_alpha(byte(s, r)) {
        Err(unexpected_at(s, r))
    } else {
        let n = symbol_run(s, r) as int;
        let r2 = blanks(s, r + n);
        if !(r2 < s.len() && s[r2] == 58) {
            Err(unexpected_at(s, r2))
        } else {
            let r3 = blanks(s, r2 + 1);
            if stalls(s, k, r3) {
                Err(unexpected_at(s, r3))
            } else {
                match value_expr(s, r3) {
                    Err(e) => Err(e),
                    Ok((e, q)) => Ok((s.subrange(r, r + n), e, q)),
                }
            }
        }
    }
}

/// `name: value` fields separated by commas up to `}`, from `k` on.
pub closed spec fn object_fields(s: Seq<u8>, k: int) -> Result<(Seq<Seq<u8>>, Seq<ExprV>, int), Fault>
    decreases s.len() - k, 26nat,
{
    match field_entry(s, k) {
        Err(e) => Err(e),
        Ok((name, e, q)) => {
            let q2 = blanks(s, q);
            if q2 >= s.len() {
                Err(unexpected_at(s, q2))
            } else if s[q2] == 125 {
                Ok((seq![name], seq![e], q2 + 1))
            } else if s[q2] != 44 {
                Err(unexpected_at(s, q2 + 1))
            } else if stalls(s, k, q2 + 1) {
                Err(unexpected_at(s, q2 + 1))
            } else {
                match object_fields(s, q2 + 1) {
                    Ok((ns, es, q3)) => Ok((seq![name] + ns, seq![e] + es, q3)),
                    Err(x) => Err(x),
                }
            }
        },
    }
}

/// An object's fields, up to its `}`.
pub closed spec fn object_value(s: Seq<u8>, p: int) -> Result<(ExprV, int), Fault>
    decreases s.len() - p, 27nat,
{
    match object_fields(s, p) {
        Ok((ns, es, q)) => Ok((ExprV::Object(ns, es), q)),
        Err(e) => Err(e),
    }
}

/// After `{`: an empty object, an object, or an interpolation.

pub closed spec fn brace_expr(s: Seq<u8>, p: int) -> Result<(ExprV, int), Fault>
    decreases s.len() - p, 28nat,
{
    let r = blanks(s, p);
    if r < s.len() && s[r] == 125 {
        Ok((ExprV::Object(Seq::empty(), Seq::empty()), r + 1))
    } else if object_ahead(s, p) {
        object_value(s, p)
    } else {
        piece_interpolation(s, p)
    }
}

/// An interpolation opening with a `{...}` part; the `{` has been taken.
pub closed spec fn piece_interpolation(s: Seq<u8>, p: int) -> Result<(ExprV, int), Fault>
    decreases s.len() - p, 26nat,
{
    match piece_expr(s, p) {
        Err(e) => Err(e),
        Ok((first, q)) => if stalls(s, p, q) {
            Err(unexpected_at(s, q))
        } else {
            interpolation_expr(s, q, first)
        },
    }
}

/// Past the lines from `p` on that hold nothing but spaces, tabs and `//` comments.
pub open spec fn skip_blank(s: Seq<u8>, p: int) -> int
    decreases s.len() - p,
{
    if 0 <= p < s.len() && line_end(s, p) is Some && p < line_end(s, p)->Some_0 <= s.len() {
        skip_blank(s, line_end(s, p)->Some_0)
    } else {
        p
    }
}

/// Exactly `indent` levels of indentation at `p`, and where the line goes on.
pub open spec fn indent_at(s: Seq<u8>, p: int, indent: int) -> Option<int> {
    if tab_run(s, p) == indent {
        Some(p + indent)
    } else if space_runs(s, p) == indent {
        Some(p + 4 * indent)
    } else {
        None
    }
}

/// `for` and a space or tab at `p`.
pub open spec fn for_at(s: Seq<u8>, p: int) -> bool {
    byte(s, p) == 102 && byte(s, p + 1) == 111 && byte(s, p + 2) == 114 && is_blank(byte(s, p + 3))
}

/// `return` and a space or tab at `p`.
pub open spec fn return_at(s: Seq<u8>, p: int) -> bool {
    byte(s, p) == 114 && byte(s, p + 1) == 101 && byte(s, p + 2) == 116 && byte(s, p + 3) == 117
        && byte(s, p + 4) == 114 && byte(s, p + 5) == 110 && is_blank(byte(s, p + 6))
}

/// A statement begins at `p`: `$`, `for ` or `return `.
pub open spec fn statement_start(s: Seq<u8>, p: int) -> bool {
    p < s.len() && (byte(s, p) == 36 || for_at(s, p) || return_at(s, p))
}

/// A value, then the end of its line.
pub closed spec fn value_line(s: Seq<u8>, r: int) -> Result<(ExprV, int), Fault> {
    match value_expr(s, r) {
        Err(e) => Err(e),
        Ok((e, q)) => match line_end(s, q) {
            Some(q2) => Ok((e, q2)),
            None => Err(unexpected_at(s, q)),
        },
    }
}

/// A statement at `p` (where one begins): `$name = value`, `return value`,
/// or `for $name in value` with its body one level deeper.
pub closed spec fn statement(s: Seq<u8>, p: int, indent: int) -> Result<(LineV, int), Fault>
    decreases s.len() - p, 1nat,
{
    if byte(s, p) == 36 {
        let p1 = p + 1;
        if !is_alpha(byte(s, p1)) {
            Err(unexpected_at(s, p1))
        } else {
            let n = symbol_run(s, p1) as int;
            let r = blanks(s, p1 + n);
            if !(r < s.len() && s[r] == 61) {
                Err(unexpected_at(s, r))
            } else {
                match value_line(s, blanks(s, r + 1)) {
                    Ok((e, q)) => Ok((LineV::VarDef(s.subrange(p1, p1 + n), e), q)),
                    Err(e) => Err(e),
                }
            }
        }
    } else if return_at(s, p) {
        match value_line(s, blanks(s, p + 6)) {
            Ok((e, q)) => Ok((LineV::Return(e), q)),
            Err(e) => Err(e),
        }
    } else {
        let r = blanks(s, p + 3);
        if !(r < s.len() && s[r] == 36) {
            Err(unexpected_at(s, r))
        } else if !is_alpha(byte(s, r + 1)) {
            Err(unexpected_at(s, r + 1))
        } else {
            let n = symbol_run(s, r + 1) as int;
            let r2 = blanks(s, r + 1 + n);
            if !(byte(s, r2) == 105 && byte(s, r2 + 1) == 110) {
                Err(unexpected_at(s, r2))
            } else {
                match value_line(s, blanks(s, r2 + 2)) {
                    Err(e) => Err(e),
                    Ok((e, q)) => if stalls(s, p, q) {
                        Err(unexpected_at(s, q))
                    } else {
                        match lines_block(s, q, indent + 1) {
                            Ok((body, q2)) => Ok((LineV::ForLoop(s.subrange(r + 1, r + 1 + n), e, body), q2)),
                            Err(x) => Err(x),
                        }
                    },
                }
            }
        }
    }
}

/// Statements at `indent` from `p` on, up to the first line indented otherwise.
pub closed spec fn lines_block(s: Seq<u8>, p: int, indent: int) -> Result<(Seq<LineV>, int), Fault>
    decreases s.len() - p, 2nat,
{
    let b = skip_blank(s, p);
    if b < p || b >= s.len() {
        Ok((Seq::empty(), b))
    } else {
        match indent_at(s, b, indent) {
            None => Ok((Seq::empty(), b)),
            Some(c) => if c < p || c > s.len() {
                Err(unexpected_at(s, c))
            } else if !statement_start(s, c) {
                Err(unexpected_at(s, c))
            } else {
                match statement(s, c, indent) {
                    Err(e) => Err(e),
                    Ok((l, q)) => if stalls(s, p, q) {
                        Err(unexpected_at(s, q))
                    } else {
                        match lines_block(s, q, indent) {
                            Ok((ls, q2)) => Ok((seq![l] + ls, q2)),
                            Err(e) => Err(e),
                        }
                    },
                }
            },
        }
    }
}

/// What a member of a block is.
pub enum MemberV {
    Prop(PropertyV),
    Nested(SelectorV),
}

/// A property or mixin call at `p`, if one stands there; `None` when the line is something else.
pub closed spec fn property_at(s: Seq<u8>, p: int) -> Option<Result<(PropertyV, int), Fault>> {
    let n = run(s, p, 4) as int;
    let q = p + n;
    let name = s.subrange(p, q);
    if n <= 0 || q > s.len() {
        None
    } else if q < s.len() && s[q] == 40 {
        match list_expr(s, q + 1, 41) {
            Err(e) => Some(Err(e)),
            Ok((args, q2)) => match line_end(s, q2) {
                Some(q3) => Some(Ok((PropertyV {
                    name,
                    expr: if args.len() == 1 { args[0] } else { ExprV::Tuple(args) },
                }, q3))),
                None => None,
            },
        }
    } else if q < s.len() && s[q] == 58 && is_blank(byte(s, q + 1)) {
        match value_line(s, blanks(s, q + 1)) {
            Err(e) => Some(Err(e)),
            Ok((e, q2)) => Some(Ok((PropertyV { name, expr: e }, q2))),
        }
    } else {
        None
    }
}

/// A member of a block at `p`: a property, a mixin call, or (where `allow_nested`)
/// a nested selector block one level deeper.
pub closed spec fn member(s: Seq<u8>, p: int, indent: int, allow_nested: bool) -> Result<(MemberV, int), Fault>
    decreases s.len() - p, 3nat,
{
    match property_at(s, p) {
        Some(Ok((pr, q))) => Ok((MemberV::Prop(pr), q)),
        Some(Err(e)) => Err(e),
        None => if !allow_nested {
            Err(unexpected_at(s, p))
        } else {
            match selector_list(s, p) {
                Err(e) => Err(e),
                Ok((sels, q)) => if stalls(s, p, q) {
                    Err(unexpected_at(s, q))
                } else {
                    match block(s, q, indent + 1, true, false) {
                        Ok((ls, ps, ns, q2)) => Ok((MemberV::Nested(SelectorV { sels, lines: ls, props: ps, nested: ns }), q2)),
                        Err(e) => Err(e),
                    }
                },
            }
        },
    }
}

/// The statements, properties and nested blocks at `indent` from `p` on, up to
/// the first line indented otherwise. Statements come first: once a member has
/// been read (`seen`), a statement is an error.
pub closed spec fn block(s: Seq<u8>, p: int, indent: int, allow_nested: bool, seen: bool) -> Result<(Seq<LineV>, Seq<PropertyV>, Seq<SelectorV>, int), Fault>
    decreases s.len() - p, 4nat,
{
    let b = skip_blank(s, p);
    if b < p || b >= s.len() {
        Ok((Seq::empty(), Seq::empty(), Seq::empty(), b))
    } else {
        match indent_at(s, b, indent) {
            None => Ok((Seq::empty(), Seq::empty(), Seq::empty(), b)),
            Some(c) => if c < p || c > s.len() {
                Err(unexpected_at(s, c))
            } else if statement_start(s, c) {
                if seen {
                    Err(unexpected_at(s, c))
                } else {
                    match statement(s, c, indent) {
                        Err(e) => Err(e),
                        Ok((l, q)) => if stalls(s, p, q) {
                            Err(unexpected_at(s, q))
                        } else {
                            match block(s, q, indent, allow_nested, false) {
                                Ok((ls, ps, ns, q2)) => Ok((seq![l] + ls, ps, ns, q2)),
                                Err(e) => Err(e),
                            }
                        },
                    }
                }
            } else {
                match member(s, c, indent, allow_nested) {
                    Err(e) => Err(e),
                    Ok((m, q)) => if stalls(s, p, q) {
                        Err(unexpected_at(s, q))
                    } else {
                        match block(s, q, indent, allow_nested, true) {
                            Err(e) => Err(e),
                            Ok((ls, ps, ns, q2)) => match m {
                                MemberV::Prop(pr) => Ok((ls, seq![pr] + ps, ns, q2)),
                                MemberV::Nested(sv) => Ok((ls, ps, seq![sv] + ns, q2)),
                            },
                        }
                    },
                }
            },
        }
    }
}

/// A `return` among the statements, or in the body of a loop among them.
pub open spec fn returns_in(ls: Seq<LineV>) -> bool
    decreases ls,
{
    if ls.len() == 0 {
        false
    } else {
        match ls[0] {
            LineV::Return(_) => true,
            LineV::ForLoop(_, _, body) => returns_in(body) || returns_in(ls.drop_first()),
            _ => returns_in(ls.drop_first()),
        }
    }
}

/// No name stands twice.
pub open spec fn distinct(ps: Seq<Seq<u8>>) -> bool {
    forall|i: int, j: int| 0 <= i < j < ps.len() ==> ps[i] != ps[j]
}

/// A mixin or function declaration `name(params)` with its body at `p`; `None`
/// when the line is not one. Parameter names must differ. A body with a `return`
/// and no properties makes a function.
pub closed spec fn declaration(s: Seq<u8>, p: int) -> Option<Result<(NodeV, int), Fault>> {
    if !is_alpha(byte(s, p)) {
        None
    } else {
        let n = symbol_run(s, p) as int;
        let q = p + n;
        let name = s.subrange(p, q);
        if !(q < s.len() && s[q] == 40) {
            None
        } else {
            match param_list(s, q + 1) {
                Err(_) => None,
                Ok((params, q2)) => match line_end(s, q2) {
                    None => None,
                    Some(q3) => Some(if !distinct(params) {
                        Err(fault(ErrorKind::DuplicateParameter, Seq::empty(), Some(place(s, p))))
                    } else {
                        match block(s, q3, 1, false, false) {
                        Err(e) => Err(e),
                        Ok((ls, ps, _, q4)) => Ok((if ps.len() == 0 && returns_in(ls) {
                            NodeV::Function(name, params, ls)
                        } else {
                            NodeV::Mixin(name, params, ls, ps)
                        }, q4)),
                        }
                    }),
                },
            }
        }
    }
}

/// A top-level selector block at `p`.
pub closed spec fn selector_node(s: Seq<u8>, p: int) -> Result<(NodeV, int), Fault> {
    match selector_list(s, p) {
        Err(e) => Err(e),
        Ok((sels, q)) => match block(s, q, 1, true, false) {
            Ok((ls, ps, ns, q2)) => Ok((NodeV::Selector(SelectorV { sels, lines: ls, props: ps, nested: ns }), q2)),
            Err(e) => Err(e),
        },
    }
}

/// One top-level item at `b`, which is not indented.
pub closed spec fn top_item(s: Seq<u8>, b: int) -> Result<(NodeV, int), Fault> {
    if s[b] == 47 && byte(s, b + 1) == 42 {
        match comment_at(s, b) {
            Ok((t, q)) => Ok((NodeV::Comment(t), q)),
            Err(e) => Err(e),
        }
    } else if statement_start(s, b) {
        match statement(s, b, 0) {
            Ok((l, q)) => Ok((NodeV::Line(l), q)),
            Err(e) => Err(e),
        }
    } else {
        match declaration(s, b) {
            Some(x) => x,
            None => selector_node(s, b),
        }
    }
}

/// A whole stylesheet from `p` on: comments, statements, declarations and
/// selector blocks, then an end marker.
pub closed spec fn stylesheet(s: Seq<u8>, p: int) -> Result<Seq<NodeV>, Fault>
    decreases s.len() - p,
{
    let b = skip_blank(s, p);
    if b < p || b >= s.len() {
        Ok(seq![NodeV::EOI])
    } else if s[b] == 32 || s[b] == 9 {
        Err(unexpected_at(s, b))
    } else {
        match top_item(s, b) {
            Err(e) => Err(e),
            Ok((n, q)) => if stalls(s, b, q) {
                Err(unexpected_at(s, q))
            } else {
                match stylesheet(s, q) {
                    Ok(ns) => Ok(seq![n] + ns),
                    Err(e) => Err(e),
                }
            },
        }
    }
}

/// One step of `variable_expr`.
pub proof fn unfold_variable_expr(s: Seq<u8>, p: int)
    ensures
        variable_expr(s, p) == ({
        let at = place(s, p);
        let p1 = p + 1;
        if !is_alpha(byte(s, p1)) {
            Err(unexpected_at(s, p1))
        } else {
            let n = symbol_run(s, p1) as int;
            let q = p1 + n;
            let var = ExprV::Variable(s.subrange(p1, q), at);
            if q < s.len() && s[q] == 46 && byte(s, q + 1) != 46 {
                match field_chain(s, q) {
                    Ok((fs, q2)) => Ok((ExprV::ObjectAccessor(Box::new(var), fs), q2)),
                    Err(e) => Err(e),
                }
            } else if q < s.len() && s[q] == 91 {
                let r = blanks(s, q + 1);
                if stalls(s, p, r) {
                    Err(unexpected_at(s, r))
                } else {
                    match value_expr(s, r) {
                        Ok((idx, q2)) => {
                            let q3 = blanks(s, q2);
                            if q3 < s.len() && s[q3] == 93 {
                                Ok((ExprV::ArrayAccessor(Box::new(var), Box::new(idx)), q3 + 1))
                            } else {
                                Err(unexpected_at(s, q3))
                            }
                        },
                        Err(e) => Err(e),
                    }
                }
            } else {
                Ok((var, q))
            }
        }
        }),
{
}

/// One step of `paren_items`.
pub proof fn unfold_paren_items(s: Seq<u8>, k: int)
    ensures
        paren_items(s, k) == ({
        match item_expr(s, k) {
            Err(e) => Err(e),
            Ok((e, q)) => {
                let q2 = blanks(s, q);
                if q2 < s.len() && s[q2] == 41 {
                    Ok((seq![e], q2 + 1, false))
                } else if q2 < s.len() && s[q2] == 44 {
                    let r = blanks(s, q2 + 1);
                    if r < s.len() && s[r] == 41 {
                        Ok((seq![e], r + 1, true))
                    } else if stalls(s, k, r) {
                        Err(unexpected_at(s, r))
                    } else {
                        match paren_items(s, r) {
                            Ok((es, q3, t)) => Ok((seq![e] + es, q3, t)),
                            Err(x) => Err(x),
                        }
                    }
                } else {
                    Err(unexpected_at(s, q2))
                }
            },
        }
        }),
{
}

/// One step of `paren_expr`.
pub proof fn unfold_paren_expr(s: Seq<u8>, p: int)
    ensures
        paren_expr(s, p) == ({
        let r = blanks(s, p);
        if r < s.len() && s[r] == 41 {
            Ok((ExprV::Tuple(Seq::empty()), r + 1))
        } else if r > s.len() {
            Err(unexpected_at(s, r))
        } else {
            match paren_items(s, r) {
                Ok((items, q, trailing)) => Ok((if items.len() == 1 && !trailing { items[0] } else { ExprV::Tuple(items) }, q)),
                Err(e) => Err(e),
            }
        }
        }),
{
}

/// One step of `word_expr`.
pub proof fn unfold_word_expr(s: Seq<u8>, p: int)
    ensures
        word_expr(s, p) == ({
        let n = run(s, p, 4) as int;
        let q = p + n;
        let word = s.subrange(p, q);
        if stalls(s, p, q) {
            Err(unexpected_at(s, p))
        } else if q < s.len() && s[q] == 40 {
            match list_expr(s, q + 1, 41) {
                Ok((args, q2)) => Ok((ExprV::FunctionCall(word, args, place(s, p)), q2)),
                Err(e) => Err(e),
            }
        } else if q < s.len() && s[q] == 123 {
            interpolation_expr(s, q, ExprV::Keyword(word))
        } else {
            Ok((ExprV::Keyword(word), q))
        }
        }),
{
}

/// One step of `atom_expr`.
pub proof fn unfold_atom_expr(s: Seq<u8>, p: int)
    ensures
        atom_expr(s, p) == ({
        if p < 0 || p >= s.len() {
            Err(unexpected_at(s, p))
        } else {
            let c = s[p];
            if c == 36 {
                variable_expr(s, p)
            } else if c == 35 {
                hash_expr(s, p)
            } else if is_digit(c) {
                number_expr(s, p, false)
            } else if c == 45 && is_digit(byte(s, p + 1)) {
                number_expr(s, p + 1, true)
            } else if c == 34 || c == 39 {
                string_expr(s, p)
            } else if c == 40 {
                paren_expr(s, p + 1)
            } else if c == 91 {
                match list_expr(s, p + 1, 93) {
                    Ok((items, q)) => Ok((ExprV::Array(items), q)),
                    Err(e) => Err(e),
                }
            } else if c == 123 {
                brace_expr(s, p + 1)
            } else if keyword_start(c) {
                word_expr(s, p)
            } else {
                Err(unexpected_at(s, p))
            }
        }
        }),
{
}

/// One step of `item_expr`.
pub proof fn unfold_item_expr(s: Seq<u8>, p: int)
    ensures
        item_expr(s, p) == ({
        match atom_expr(s, p) {
            Err(e) => Err(e),
            Ok((a, q)) => match binop(s, q) {
                None => Ok((a, q)),
                Some((op, q2)) => {
                    let r = blanks(s, q2);
                    if r >= s.len() || s[r] == 10 || s[r] == 13 {
                        Ok((a, q))
                    } else if stalls(s, p, r) {
                        Err(unexpected_at(s, r))
                    } else {
                        match item_expr(s, r) {
                            Ok((b, q3)) => Ok((ExprV::Operation(op, Box::new(a), Box::new(b)), q3)),
                            Err(e) => Err(e),
                        }
                    }
                },
            },
        }
        }),
{
}

/// One step of `value_items`.
pub proof fn unfold_value_items(s: Seq<u8>, p: int)
    ensures
        value_items(s, p) == ({
        match item_expr(s, p) {
            Err(e) => Err(e),
            Ok((e, q)) => {
                let r = blanks(s, q);
                if ends_value(s, r) {
                    Ok((seq![e], q))
                } else if stalls(s, p, r) {
                    Err(unexpected_at(s, r))
                } else {
                    match value_items(s, r) {
                        Ok((es, q2)) => Ok((seq![e] + es, q2)),
                        Err(x) => Err(x),
                    }
                }
            },
        }
        }),
{
}

/// One step of `value_expr`.
pub proof fn unfold_value_expr(s: Seq<u8>, p: int)
    ensures
        value_expr(s, p) == ({
        match value_items(s, p) {
            Ok((es, q)) => Ok((if es.len() == 1 { es[0] } else { ExprV::Tuple(es) }, q)),
            Err(e) => Err(e),
        }
        }),
{
}

/// One step of `list_items`.
pub proof fn unfold_list_items(s: Seq<u8>, k: int, close: u8)
    ensures
        list_items(s, k, close) == ({
        match value_expr(s, k) {
            Err(e) => Err(e),
            Ok((e, q)) => {
                let q2 = blanks(s, q);
                if q2 >= s.len() {
                    Err(unexpected_at(s, q2))
                } else if s[q2] == close {
                    Ok((seq![e], q2 + 1))
                } else if s[q2] != 44 {
                    Err(unexpected_at(s, q2 + 1))
                } else {
                    let r = blanks(s, q2 + 1);
                    if stalls(s, k, r) {
                        Err(unexpected_at(s, r))
                    } else {
                        match list_items(s, r, close) {
                            Ok((es, q3)) => Ok((seq![e] + es, q3)),
                            Err(x) => Err(x),
                        }
                    }
                }
            },
        }
        }),
{
}

/// One step of `list_expr`.
pub proof fn unfold_list_expr(s: Seq<u8>, p: int, close: u8)
    ensures
        list_expr(s, p, close) == ({
        let r = blanks(s, p);
        if r < s.len() && s[r] == close {
            Ok((Seq::empty(), r + 1))
        } else if r > s.len() {
            Err(unexpected_at(s, r))
        } else {
            list_items(s, r, close)
        }
        }),
{
}

/// One step of `piece_inner`.
pub proof fn unfold_piece_inner(s: Seq<u8>, r: int)
    ensures
        piece_inner(s, r) == ({
        if is_alpha(byte(s, r)) && ({
            let r2 = blanks(s, r + symbol_run(s, r));
            r2 < s.len() && s[r2] == 125
        }) {
            let n = symbol_run(s, r) as int;
            Ok((ExprV::Variable(s.subrange(r, r + n), place(s, r)), blanks(s, r + n)))
        } else if r > s.len() {
            Err(unexpected_at(s, r))
        } else {
            value_expr(s, r)
        }
        }),
{
}

/// One step of `piece_expr`.
pub proof fn unfold_piece_expr(s: Seq<u8>, p: int)
    ensures
        piece_expr(s, p) == ({
        let r = blanks(s, p);
        if r > s.len() {
            Err(unexpected_at(s, r))
        } else {
            match piece_inner(s, r) {
                Err(e) => Err(e),
                Ok((e, q)) => {
                    let q2 = blanks(s, q);
                    if q2 < s.len() && s[q2] == 125 {
                        Ok((e, q2 + 1))
                    } else {
                        Err(unexpected_at(s, q2))
                    }
                },
            }
        }
        }),
{
}

/// One step of `interpolation_parts`.
pub proof fn unfold_interpolation_parts(s: Seq<u8>, k: int)
    ensures
        interpolation_parts(s, k) == ({
        if 0 <= k < s.len() && s[k] == 123 {
            match piece_expr(s, k + 1) {
                Err(e) => Err(e),
                Ok((e, q)) => if stalls(s, k, q) {
                    Err(unexpected_at(s, q))
                } else {
                    match interpolation_parts(s, q) {
                        Ok((es, q2)) => Ok((seq![e] + es, q2)),
                        Err(x) => Err(x),
                    }
                },
            }
        } else {
            let n = run(s, k, 4) as int;
            if n <= 0 {
                Ok((Seq::empty(), k))
            } else if stalls(s, k, k + n) {
                Err(unexpected_at(s, k))
            } else {
                match interpolation_parts(s, k + n) {
                    Ok((es, q2)) => Ok((seq![ExprV::Keyword(s.subrange(k, k + n))] + es, q2)),
                    Err(x) => Err(x),
                }
            }
        }
        }),
{
}

/// One step of `interpolation_expr`.
pub proof fn unfold_interpolation_expr(s: Seq<u8>, p: int, first: ExprV)
    ensures
        interpolation_expr(s, p, first) == ({
        match interpolation_parts(s, p) {
            Ok((es, q)) => Ok((ExprV::Interpolation(seq![first] + es), q)),
            Err(e) => Err(e),
        }
        }),
{
}

/// One step of `field_entry`.
pub proof fn unfold_field_entry(s: Seq<u8>, k: int)
    ensures
        field_entry(s, k) == ({
        let r = blanks(s, k);
        if !is_alpha(byte(s, r)) {
            Err(unexpected_at(s, r))
        } else {
            let n = symbol_run(s, r) as int;
            let r2 = blanks(s, r + n);
            if !(r2 < s.len() && s[r2] == 58) {
                Err(unexpected_at(s, r2))
            } else {
                let r3 = blanks(s, r2 + 1);
                if stalls(s, k, r3) {
                    Err(unexpected_at(s, r3))
                } else {
                    match value_expr(s, r3) {
                        Err(e) => Err(e),
                        Ok((e, q)) => Ok((s.subrange(r, r + n), e, q)),
                    }
                }
            }
        }
        }),
{
}

/// One step of `object_fields`.
pub proof fn unfold_object_fields(s: Seq<u8>, k: int)
    ensures
        object_fields(s, k) == ({
        match field_entry(s, k) {
            Err(e) => Err(e),
            Ok((name, e, q)) => {
                let q2 = blanks(s, q);
                if q2 >= s.len() {
                    Err(unexpected_at(s, q2))
                } else if s[q2] == 125 {
                    Ok((seq![name], seq![e], q2 + 1))
                } else if s[q2] != 44 {
                    Err(unexpected_at(s, q2 + 1))
                } else if stalls(s, k, q2 + 1) {
                    Err(unexpected_at(s, q2 + 1))
                } else {
                    match object_fields(s, q2 + 1) {
                        Ok((ns, es, q3)) => Ok((seq![name] + ns, seq![e] + es, q3)),
                        Err(x) => Err(x),
                    }
                }
            },
        }
        }),
{
}

/// One step of `object_value`.
pub proof fn unfold_object_value(s: Seq<u8>, p: int)
    ensures
        object_value(s, p) == ({
        match object_fields(s, p) {
            Ok((ns, es, q)) => Ok((ExprV::Object(ns, es), q)),
            Err(e) => Err(e),
        }
        }),
{
}

/// One step of `brace_expr`.
pub proof fn unfold_brace_expr(s: Seq<u8>, p: int)
    ensures
        brace_expr(s, p) == ({
        let r = blanks(s, p);
        if r < s.len() && s[r] == 125 {
            Ok((ExprV::Object(Seq::empty(), Seq::empty()), r + 1))
        } else if object_ahead(s, p) {
            object_value(s, p)
        } else {
            piece_interpolation(s, p)
        }
        }),
{
}

/// One step of `piece_interpolation`.
pub proof fn unfold_piece_interpolation(s: Seq<u8>, p: int)
    ensures
        piece_interpolation(s, p) == ({
        match piece_expr(s, p) {
            Err(e) => Err(e),
            Ok((first, q)) => if stalls(s, p, q) {
                Err(unexpected_at(s, q))
            } else {
                interpolation_expr(s, q, first)
            },
        }
        }),
{
}

/// One step of `statement`.
pub proof fn unfold_statement(s: Seq<u8>, p: int, indent: int)
    ensures
        statement(s, p, indent) == ({
        if byte(s, p) == 36 {
            let p1 = p + 1;
            if !is_alpha(byte(s, p1)) {
                Err(unexpected_at(s, p1))
            } else {
                let n = symbol_run(s, p1) as int;
                let r = blanks(s, p1 + n);
                if !(r < s.len() && s[r] == 61) {
                    Err(unexpected_at(s, r))
                } else {
                    match value_line(s, blanks(s, r + 1)) {
                        Ok((e, q)) => Ok((LineV::VarDef(s.subrange(p1, p1 + n), e), q)),
                        Err(e) => Err(e),
                    }
                }
            }
        } else if return_at(s, p) {
            match value_line(s, blanks(s, p + 6)) {
                Ok((e, q)) => Ok((LineV::Return(e), q)),
                Err(e) => Err(e),
            }
        } else {
            let r = blanks(s, p + 3);
            if !(r < s.len() && s[r] == 36) {
                Err(unexpected_at(s, r))
            } else if !is_alpha(byte(s, r + 1)) {
                Err(unexpected_at(s, r + 1))
            } else {
                let n = symbol_run(s, r + 1) as int;
                let r2 = blanks(s, r + 1 + n);
                if !(byte(s, r2) == 105 && byte(s, r2 + 1) == 110) {
                    Err(unexpected_at(s, r2))
                } else {
                    match value_line(s, blanks(s, r2 + 2)) {
                        Err(e) => Err(e),
                        Ok((e, q)) => if stalls(s, p, q) {
                            Err(unexpected_at(s, q))
                        } else {
                            match lines_block(s, q, indent + 1) {
                                Ok((body, q2)) => Ok((LineV::ForLoop(s.subrange(r + 1, r + 1 + n), e, body), q2)),
                                Err(x) => Err(x),
                            }
                        },
                    }
                }
            }
        }
        }),
{
}

/// One step of `lines_block`.
pub proof fn unfold_lines_block(s: Seq<u8>, p: int, indent: int)
    ensures
        lines_block(s, p, indent) == ({
        let b = skip_blank(s, p);
        if b < p || b >= s.len() {
            Ok((Seq::empty(), b))
        } else {
            match indent_at(s, b, indent) {
                None => Ok((Seq::empty(), b)),
                Some(c) => if c < p || c > s.len() {
                    Err(unexpected_at(s, c))
                } else if !statement_start(s, c) {
                    Err(unexpected_at(s, c))
                } else {
                    match statement(s, c, indent) {
                        Err(e) => Err(e),
                        Ok((l, q)) => if stalls(s, p, q) {
                            Err(unexpected_at(s, q))
                        } else {
                            match lines_block(s, q, indent) {
                                Ok((ls, q2)) => Ok((seq![l] + ls, q2)),
                                Err(e) => Err(e),
                            }
                        },
                    }
                },
            }
        }
        }),
{
}

/// One step of `member`.
pub proof fn unfold_member(s: Seq<u8>, p: int, indent: int, allow_nested: bool)
    ensures
        member(s, p, indent, allow_nested) == ({
        match property_at(s, p) {
            Some(Ok((pr, q))) => Ok((MemberV::Prop(pr), q)),
            Some(Err(e)) => Err(e),
            None => if !allow_nested {
                Err(unexpected_at(s, p))
            } else {
                match selector_list(s, p) {
                    Err(e) => Err(e),
                    Ok((sels, q)) => if stalls(s, p, q) {
                        Err(unexpected_at(s, q))
                    } else {
                        match block(s, q, indent + 1, true, false) {
                            Ok((ls, ps, ns, q2)) => Ok((MemberV::Nested(SelectorV { sels, lines: ls, props: ps, nested: ns }), q2)),
                            Err(e) => Err(e),
                        }
                    },
                }
            },
        }
        }),
{
}

/// One step of `block`.
pub proof fn unfold_block(s: Seq<u8>, p: int, indent: int, allow_nested: bool, seen: bool)
    ensures
        block(s, p, indent, allow_nested, seen) == ({
        let b = skip_blank(s, p);
        if b < p || b >= s.len() {
            Ok((Seq::empty(), Seq::empty(), Seq::empty(), b))
        } else {
            match indent_at(s, b, indent) {
                None => Ok((Seq::empty(), Seq::empty(), Seq::empty(), b)),
                Some(c) => if c < p || c > s.len() {
                    Err(unexpected_at(s, c))
                } else if statement_start(s, c) {
                    if seen {
                        Err(unexpected_at(s, c))
                    } else {
                        match statement(s, c, indent) {
                            Err(e) => Err(e),
                            Ok((l, q)) => if stalls(s, p, q) {
                                Err(unexpected_at(s, q))
                            } else {
                                match block(s, q, indent, allow_nested, false) {
                                    Ok((ls, ps, ns, q2)) => Ok((seq![l] + ls, ps, ns, q2)),
                                    Err(e) => Err(e),
                                }
                            },
                        }
                    }
                } else {
                    match member(s, c, indent, allow_nested) {
                        Err(e) => Err(e),
                        Ok((m, q)) => if stalls(s, p, q) {
                            Err(unexpected_at(s, q))
                        } else {
                            match block(s, q, indent, allow_nested, true) {
                                Err(e) => Err(e),
                                Ok((ls, ps, ns, q2)) => match m {
                                    MemberV::Prop(pr) => Ok((ls, seq![pr] + ps, ns, q2)),
                                    MemberV::Nested(sv) => Ok((ls, ps, seq![sv] + ns, q2)),
                                },
                            }
                        },
                    }
                },
            }
        }
        }),
{
}

/// One step of `declaration`.
pub proof fn unfold_declaration(s: Seq<u8>, p: int)
    ensures
        declaration(s, p) == ({
        if !is_alpha(byte(s, p)) {
            None
        } else {
            let n = symbol_run(s, p) as int;
            let q = p + n;
            let name = s.subrange(p, q);
            if !(q < s.len() && s[q] == 40) {
                None
            } else {
                match param_list(s, q + 1) {
                    Err(_) => None,
                    Ok((params, q2)) => match line_end(s, q2) {
                        None => None,
                        Some(q3) => Some(if !distinct(params) {
                            Err(fault(ErrorKind::DuplicateParameter, Seq::empty(), Some(place(s, p))))
                        } else {
                            match block(s, q3, 1, false, false) {
                            Err(e) => Err(e),
                            Ok((ls, ps, _, q4)) => Ok((if ps.len() == 0 && returns_in(ls) {
                                NodeV::Function(name, params, ls)
                            } else {
                                NodeV::Mixin(name, params, ls, ps)
                            }, q4)),
                            }
                        }),
                    },
                }
            }
        }
        }),
{
}

/// One step of `top_item`.
pub proof fn unfold_top_item(s: Seq<u8>, b: int)
    ensures
        top_item(s, b) == ({
        if s[b] == 47 && byte(s, b + 1) == 42 {
            match comment_at(s, b) {
                Ok((t, q)) => Ok((NodeV::Comment(t), q)),
                Err(e) => Err(e),
            }
        } else if statement_start(s, b) {
            match statement(s, b, 0) {
                Ok((l, q)) => Ok((NodeV::Line(l), q)),
                Err(e) => Err(e),
            }
        } else {
            match declaration(s, b) {
                Some(x) => x,
                None => selector_node(s, b),
            }
        }
        }),
{
}

/// One step of `stylesheet`.
pub proof fn unfold_stylesheet(s: Seq<u8>, p: int)
    ensures
        stylesheet(s, p) == ({
        let b = skip_blank(s, p);
        if b < p || b >= s.len() {
            Ok(seq![NodeV::EOI])
        } else if s[b] == 32 || s[b] == 9 {
            Err(unexpected_at(s, b))
        } else {
            match top_item(s, b) {
                Err(e) => Err(e),
                Ok((n, q)) => if stalls(s, b, q) {
                    Err(unexpected_at(s, q))
                } else {
                    match stylesheet(s, q) {
                        Ok(ns) => Ok(seq![n] + ns),
                        Err(e) => Err(e),
                    }
                },
            }
        }
        }),
{
}

/// One step of `property_at`.
pub proof fn unfold_property_at(s: Seq<u8>, p: int)
    ensures
        property_at(s, p) == ({
        let n = run(s, p, 4) as int;
        let q = p + n;
        let name = s.subrange(p, q);
        if n <= 0 || q > s.len() {
            None
        } else if q < s.len() && s[q] == 40 {
            match list_expr(s, q + 1, 41) {
                Err(e) => Some(Err(e)),
                Ok((args, q2)) => match line_end(s, q2) {
                    Some(q3) => Some(Ok((PropertyV {
                        name,
                        expr: if args.len() == 1 { args[0] } else { ExprV::Tuple(args) },
                    }, q3))),
                    None => None,
                },
            }
        } else if q < s.len() && s[q] == 58 && is_blank(byte(s, q + 1)) {
            match value_line(s, blanks(s, q + 1)) {
                Err(e) => Some(Err(e)),
                Ok((e, q2)) => Some(Ok((PropertyV { name, expr: e }, q2))),
            }
        } else {
            None
        }
        }),
{
}

/// One step of `value_line`.
pub proof fn unfold_value_line(s: Seq<u8>, r: int)
    ensures
        value_line(s, r) == ({
        match value_expr(s, r) {
            Err(e) => Err(e),
            Ok((e, q)) => match line_end(s, q) {
                Some(q2) => Ok((e, q2)),
                None => Err(unexpected_at(s, q)),
            },
        }
        }),
{
}

/// One step of `selector_node`.
pub proof fn unfold_selector_node(s: Seq<u8>, p: int)
    ensures
        selector_node(s, p) == ({
        match selector_list(s, p) {
            Err(e) => Err(e),
            Ok((sels, q)) => match block(s, q, 1, true, false) {
                Ok((ls, ps, ns, q2)) => Ok((NodeV::Selector(SelectorV { sels, lines: ls, props: ps, nested: ns }), q2)),
                Err(e) => Err(e),
            },
        }
        }),
{
}

} // verus!
