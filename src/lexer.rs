use vstd::prelude::*;
use crate::error::{Error, ErrorKind};
use crate::nodes::Op;
use crate::num::{pow10, UNIT};

verus! {

pub const TAB: u8 = 9;
pub const NEWLINE: u8 = 10;
pub const FORM_FEED: u8 = 12;
pub const RETURN: u8 = 13;
pub const SPACE: u8 = 32;

/// Space, tab, line feed or carriage return.
pub open spec fn is_ws(c: u8) -> bool {
    c == SPACE || c == TAB || c == NEWLINE || c == RETURN
}

pub open spec fn is_digit(c: u8) -> bool {
    48 <= c <= 57
}

pub open spec fn is_alpha(c: u8) -> bool {
    (65 <= c <= 90) || (97 <= c <= 122)
}

pub open spec fn is_hex(c: u8) -> bool {
    is_digit(c) || (65 <= c <= 70) || (97 <= c <= 102)
}

/// A byte that may follow the first letter of a symbol.
pub open spec fn is_symbol_byte(c: u8) -> bool {
    is_alpha(c) || is_digit(c) || c == 95 || c == 45
}

/// The line (from 1) on which byte `p` of `s` stands.
pub open spec fn line_at(s: Seq<u8>, p: int) -> int
    decreases p,
{
    if p <= 0 {
        1
    } else if s[p - 1] == NEWLINE {
        line_at(s, p - 1) + 1
    } else {
        line_at(s, p - 1)
    }
}

/// The column (from 1) at which byte `p` of `s` stands.
pub open spec fn col_at(s: Seq<u8>, p: int) -> int
    decreases p,
{
    if p <= 0 {
        1
    } else if s[p - 1] == NEWLINE {
        1
    } else {
        col_at(s, p - 1) + 1
    }
}

pub proof fn lemma_line_col_bounds(s: Seq<u8>, p: int)
    requires
        0 <= p,
    ensures
        1 <= line_at(s, p) <= p + 1,
        1 <= col_at(s, p) <= p + 1,
    decreases p,
{
    if p > 0 {
        lemma_line_col_bounds(s, p - 1);
    }
}

/// The `(line, column)` of byte `p` of `s`.
pub open spec fn place(s: Seq<u8>, p: int) -> (usize, usize) {
    (line_at(s, p) as usize, col_at(s, p) as usize)
}

/// `needle` occurs in `s` at offset `p`.
pub open spec fn starts_at(s: Seq<u8>, p: int, needle: Seq<u8>) -> bool {
    0 <= p && p + needle.len() <= s.len() && s.subrange(p, p + needle.len()) == needle
}

/// A cursor over source bytes that keeps the line and column of its position.
pub struct Lexer {
    input: Vec<u8>,
    position: usize,
    line: usize,
    col: usize,
}

impl Lexer {
    pub closed spec fn bytes(&self) -> Seq<u8> {
        self.input@
    }

    pub closed spec fn pos(&self) -> int {
        self.position as int
    }

    pub closed spec fn wf(&self) -> bool {
        &&& self.position <= self.input@.len()
        &&& self.input@.len() < usize::MAX
        &&& self.line == line_at(self.input@, self.position as int)
        &&& self.col == col_at(self.input@, self.position as int)
    }

    /// The byte `n` places ahead of the position, or 0 past the end.
    pub open spec fn byte_ahead(&self, n: int) -> u8 {
        if 0 <= self.pos() + n < self.bytes().len() {
            self.bytes()[self.pos() + n]
        } else {
            0
        }
    }

    pub fn new(input: &[u8]) -> (r: Lexer)
        requires
            input@.len() < usize::MAX,
        ensures
            r.wf(),
            r.bytes() == input@,
            r.pos() == 0,
    {
        let mut v: Vec<u8> = Vec::new();
        let mut i: usize = 0;
        while i < input.len()
            invariant
                i <= input@.len(),
                v@ == input@.subrange(0, i as int),
            decreases input@.len() - i,
        {
            v.push(input[i]);
            i += 1;
            assert(v@ == input@.subrange(0, i as int));
        }
        assert(v@ == input@);
        Lexer { input: v, position: 0, line: 1, col: 1 }
    }

    pub fn is_whitespace(&self, c: &u8) -> (r: bool)
        ensures
            r == is_ws(*c),
    {
        *c == SPACE || *c == TAB || *c == NEWLINE || *c == RETURN
    }

    /// The `(line, column)` of the position.
    pub fn position(&self) -> (r: (usize, usize))
        requires
            self.wf(),
        ensures
            r.0 == line_at(self.bytes(), self.pos()),
            r.1 == col_at(self.bytes(), self.pos()),
    {
        (self.line, self.col)
    }

    /// The `(line, column)` that `n` bytes further on would have (no further than the end).
    pub fn position_at(&self, n: usize) -> (r: (usize, usize))
        requires
            self.wf(),
        ensures
            ({
                let q = if self.pos() + n < self.bytes().len() { self.pos() + n } else { self.bytes().len() as int };
                r.0 == line_at(self.bytes(), q) && r.1 == col_at(self.bytes(), q)
            }),
    {
        let mut line = self.line;
        let mut col = self.col;
        let mut p = self.position;
        let mut i: usize = 0;
        while i < n && p < self.input.len()
            invariant
                self.wf(),
                self.position <= p <= self.input@.len(),
                p == self.position + i,
                i <= n,
                line == line_at(self.input@, p as int),
                col == col_at(self.input@, p as int),
            decreases n - i,
        {
            proof { lemma_line_col_bounds(self.input@, p as int); }
            if self.input[p] == NEWLINE {
                line = line + 1;
                col = 1;
            } else {
                col = col + 1;
            }
            p = p + 1;
            i = i + 1;
        }
        (line, col)
    }

    pub fn at(&self, n: usize) -> (r: u8)
        requires
            self.wf(),
        ensures
            r == self.byte_ahead(n as int),
    {
        if n < self.input.len() - self.position {
            self.input[self.position + n]
        } else {
            0
        }
    }

    pub fn char_at(&self, n: usize) -> (r: char)
        requires
            self.wf(),
        ensures
            r as u32 == self.byte_ahead(n as int) as u32,
    {
        self.at(n) as char
    }

    /// Whether the rest of the input starts with `needle`.
    pub fn peek(&self, needle: &[u8]) -> (r: bool)
        requires
            self.wf(),
        ensures
            r == starts_at(self.bytes(), self.pos(), needle@),
    {
        self.peek_from(self.position, needle)
    }

    /// Whether `needle` stands `n` bytes ahead, that place being inside the input.
    pub fn peek_at(&self, n: usize, needle: &[u8]) -> (r: bool)
        requires
            self.wf(),
        ensures
            r == (self.pos() + n < self.bytes().len() && starts_at(self.bytes(), self.pos() + n, needle@)),
    {
        if n < self.input.len() - self.position {
            self.peek_from(self.position + n, needle)
        } else {
            false
        }
    }

    fn peek_from(&self, p: usize, needle: &[u8]) -> (r: bool)
        requires
            p <= self.input@.len(),
            self.input@.len() < usize::MAX,
        ensures
            r == starts_at(self.input@, p as int, needle@),
    {
        if needle.len() > self.input.len() - p {
            return false;
        }
        let mut i: usize = 0;
        while i < needle.len()
            invariant
                p + needle@.len() <= self.input@.len(),
                self.input@.len() < usize::MAX,
                i <= needle@.len(),
                forall|k: int| 0 <= k < i ==> self.input@[p + k] == needle@[k],
            decreases needle@.len() - i,
        {
            assert(p + i < self.input@.len());
            if self.input[p + i] != needle[i] {
                assert(self.input@.subrange(p as int, p + needle@.len())[i as int] != needle@[i as int]);
                return false;
            }
            i += 1;
        }
        assert(self.input@.subrange(p as int, p + needle@.len()) =~= needle@);
        true
    }

    /// Moves `n` bytes on, stopping at the end of the input.
    pub fn advance(&mut self, n: usize)
        requires
            old(self).wf(),
        ensures
            final(self).wf(),
            final(self).bytes() == old(self).bytes(),
            final(self).pos() == if old(self).pos() + n < old(self).bytes().len() {
                old(self).pos() + n
            } else {
                old(self).bytes().len() as int
            },
    {
        let mut i: usize = 0;
        while i < n && self.position < self.input.len()
            invariant
                self.wf(),
                self.input@ == old(self).input@,
                self.position == old(self).position + i,
                i <= n,
            decreases n - i,
        {
            proof { lemma_line_col_bounds(self.input@, self.position as int); }
            if self.input[self.position] == NEWLINE {
                self.line = self.line + 1;
                self.col = 1;
            } else {
                self.col = self.col + 1;
            }
            self.position = self.position + 1;
            i = i + 1;
        }
    }

    pub fn has_left(&self) -> (r: bool)
        requires
            self.wf(),
        ensures
            r == (self.pos() < self.bytes().len()),
    {
        self.position < self.input.len()
    }

    /// Skips spaces, tabs and line breaks.
    pub fn skip_whitespace(&mut self)
        requires
            old(self).wf(),
        ensures
            final(self).wf(),
            final(self).bytes() == old(self).bytes(),
            old(self).pos() <= final(self).pos() <= final(self).bytes().len(),
            forall|k: int| old(self).pos() <= k < final(self).pos() ==> is_ws(#[trigger] final(self).bytes()[k]),
            final(self).pos() == final(self).bytes().len() || !is_ws(final(self).bytes()[final(self).pos()]),
    {
        while self.position < self.input.len() && self.is_whitespace(&self.input[self.position])
            invariant
                self.wf(),
                self.input@ == old(self).input@,
                old(self).position <= self.position <= self.input@.len(),
                forall|k: int| old(self).pos() <= k < self.position ==> is_ws(#[trigger] self.input@[k]),
            decreases self.input@.len() - self.position,
        {
            self.advance(1);
        }
    }

    /// Takes the byte `c` if it comes next.
    pub fn try_char(&mut self, c: char) -> (r: bool)
        requires
            old(self).wf(),
        ensures
            final(self).wf(),
            final(self).bytes() == old(self).bytes(),
            r == (old(self).byte_ahead(0) as u32 == c as u32),
            final(self).pos() == if r && old(self).pos() < old(self).bytes().len() {
                old(self).pos() + 1
            } else {
                old(self).pos()
            },
    {
        if self.char_at(0) == c {
            self.advance(1);
            true
        } else {
            false
        }
    }

    /// Takes `s` if the rest of the input starts with it.
    pub fn try_peek(&mut self, s: &[u8]) -> (r: bool)
        requires
            old(self).wf(),
        ensures
            final(self).wf(),
            final(self).bytes() == old(self).bytes(),
            r == starts_at(old(self).bytes(), old(self).pos(), s@),
            final(self).pos() == if r { old(self).pos() + s@.len() } else { old(self).pos() },
    {
        if self.peek(s) {
            self.advance(s.len());
            true
        } else {
            false
        }
    }

    /// Takes trailing spaces and tabs and one line break, if a line break follows them.
    pub fn try_newline(&mut self) -> (r: bool)
        requires
            old(self).wf(),
        ensures
            final(self).wf(),
            final(self).bytes() == old(self).bytes(),
            r == (exists|n: int| 0 <= n && blanks_then(old(self).bytes(), old(self).pos(), n)
                && is_line_break(old(self).byte_ahead(n))),
            r ==> (exists|n: int| 0 <= n && blanks_then(old(self).bytes(), old(self).pos(), n)
                && is_line_break(old(self).byte_ahead(n)) && final(self).pos() == old(self).pos() + n + 1),
            !r ==> final(self).pos() == old(self).pos(),
    {
        let n = self.count_blanks();
        let b = self.at(n);
        if b == NEWLINE || b == RETURN {
            self.advance(n + 1);
            true
        } else {
            proof {
                assert forall|m: int| 0 <= m && blanks_then(self.bytes(), self.pos(), m)
                    implies !is_line_break(self.byte_ahead(m)) by {
                    if m < n {
                        assert(is_blank(self.byte_ahead(m)));
                    } else if m > n {
                        assert(is_blank(self.byte_ahead(n as int)));
                    }
                }
            }
            false
        }
    }

    /// The number of spaces and tabs from the position on.
    fn count_blanks(&self) -> (n: usize)
        requires
            self.wf(),
        ensures
            self.pos() + n < self.bytes().len() || self.pos() + n == self.bytes().len(),
            blanks_then(self.bytes(), self.pos(), n as int),
            !is_blank(self.byte_ahead(n as int)),
    {
        let mut n: usize = 0;
        while n < self.input.len() - self.position && (self.input[self.position + n] == SPACE
            || self.input[self.position + n] == TAB)
            invariant
                self.wf(),
                self.position + n <= self.input@.len(),
                blanks_then(self.input@, self.position as int, n as int),
            decreases self.input@.len() - self.position - n,
        {
            n += 1;
        }
        n
    }

    /// Takes exactly `indent` levels of indentation: `indent` tabs not followed
    /// by another tab, or `indent` runs of four spaces not followed by another such run.
    pub fn try_indent(&mut self, indent: usize) -> (r: bool)
        requires
            old(self).wf(),
        ensures
            final(self).wf(),
            final(self).bytes() == old(self).bytes(),
            r == (tab_run(old(self).bytes(), old(self).pos()) == indent
                || space_runs(old(self).bytes(), old(self).pos()) == indent),
            final(self).pos() == if tab_run(old(self).bytes(), old(self).pos()) == indent {
                old(self).pos() + indent
            } else if space_runs(old(self).bytes(), old(self).pos()) == indent {
                old(self).pos() + 4 * indent
            } else {
                old(self).pos()
            },
    {
        let t = self.count_tabs();
        if t == indent {
            self.advance(t);
            return true;
        }
        let s = self.count_space_runs();
        if s == indent {
            self.advance(4 * s);
            true
        } else {
            false
        }
    }

    fn count_tabs(&self) -> (n: usize)
        requires
            self.wf(),
        ensures
            n == tab_run(self.bytes(), self.pos()),
            self.pos() + n <= self.bytes().len(),
    {
        let mut n: usize = 0;
        while n < self.input.len() - self.position && self.input[self.position + n] == TAB
            invariant
                self.wf(),
                self.position + n <= self.input@.len(),
                tab_run(self.input@, self.position as int) == n + tab_run(self.input@, self.position + n),
            decreases self.input@.len() - self.position - n,
        {
            n += 1;
        }
        n
    }

    fn four_spaces_at(&self, p: usize) -> (r: bool)
        requires
            p + 4 <= self.input@.len(),
            self.input@.len() < usize::MAX,
        ensures
            r == (self.input@[p as int] == SPACE && self.input@[p + 1] == SPACE
                && self.input@[p + 2] == SPACE && self.input@[p + 3] == SPACE),
    {
        self.input[p] == SPACE && self.input[p + 1] == SPACE && self.input[p + 2] == SPACE
            && self.input[p + 3] == SPACE
    }

    fn count_space_runs(&self) -> (n: usize)
        requires
            self.wf(),
        ensures
            n == space_runs(self.bytes(), self.pos()),
            self.pos() + 4 * n <= self.bytes().len(),
    {
        let mut n: usize = 0;
        while n < (self.input.len() - self.position) / 4 && self.four_spaces_at(self.position + 4 * n)
            invariant
                self.wf(),
                self.position + 4 * n <= self.input@.len(),
                space_runs(self.input@, self.position as int) == n + space_runs(self.input@, self.position + 4 * n),
            decreases self.input@.len() - self.position - 4 * n,
        {
            n += 1;
        }
        n
    }
}

pub open spec fn is_blank(c: u8) -> bool {
    c == SPACE || c == TAB
}

pub open spec fn is_line_break(c: u8) -> bool {
    c == NEWLINE || c == RETURN
}

/// The `n` bytes from `p` on are spaces and tabs.
pub open spec fn blanks_then(s: Seq<u8>, p: int, n: int) -> bool {
    p + n <= s.len() && forall|k: int| p <= k < p + n ==> is_blank(#[trigger] s[k])
}

/// The number of tabs in a row from `p` on.
pub open spec fn tab_run(s: Seq<u8>, p: int) -> nat
    decreases s.len() - p,
{
    if 0 <= p < s.len() && s[p] == TAB {
        1 + tab_run(s, p + 1)
    } else {
        0
    }
}

/// The number of runs of four spaces in a row from `p` on.
pub open spec fn space_runs(s: Seq<u8>, p: int) -> nat
    decreases s.len() - p,
{
    if 0 <= p && p + 4 <= s.len() && s[p] == SPACE && s[p + 1] == SPACE && s[p + 2] == SPACE
        && s[p + 3] == SPACE {
        1 + space_runs(s, p + 4)
    } else {
        0
    }
}


/// Byte classes: 0 symbol bytes, 1 digits, 2 hex digits, 3 spaces and tabs,
/// 4 keyword bytes (symbol bytes and `!`), 5 identifier bytes (letters, digits, `_`).
pub open spec fn in_class(kind: u8, c: u8) -> bool {
    if kind == 0 {
        is_symbol_byte(c)
    } else if kind == 1 {
        is_digit(c)
    } else if kind == 2 {
        is_hex(c)
    } else if kind == 3 {
        is_blank(c)
    } else if kind == 4 {
        is_symbol_byte(c) || c == 33
    } else {
        is_alpha(c) || is_digit(c) || c == 95
    }
}

/// The number of bytes of class `kind` in a row from `p` on.
pub open spec fn run(s: Seq<u8>, p: int, kind: u8) -> nat
    decreases s.len() - p,
{
    if 0 <= p < s.len() && in_class(kind, s[p]) {
        1 + run(s, p + 1, kind)
    } else {
        0
    }
}

pub open spec fn symbol_run(s: Seq<u8>, p: int) -> nat {
    run(s, p, 0)
}

pub open spec fn digit_run(s: Seq<u8>, p: int) -> nat {
    run(s, p, 1)
}

pub open spec fn hex_run(s: Seq<u8>, p: int) -> nat {
    run(s, p, 2)
}

/// The number of spaces and tabs in a row from `p` on.
pub open spec fn blank_run(s: Seq<u8>, p: int) -> nat {
    run(s, p, 3)
}

pub proof fn lemma_run_bound(s: Seq<u8>, p: int, kind: u8)
    requires
        0 <= p <= s.len(),
    ensures
        p + run(s, p, kind) <= s.len(),
        forall|k: int| p <= k < p + run(s, p, kind) ==> in_class(kind, #[trigger] s[k]),
        p + run(s, p, kind) < s.len() ==> !in_class(kind, s[p + run(s, p, kind)]),
    decreases s.len() - p,
{
    if p < s.len() && in_class(kind, s[p]) {
        lemma_run_bound(s, p + 1, kind);
    }
}

/// The value of a string of decimal digits.
pub open spec fn digits_value(d: Seq<u8>) -> int
    decreases d.len(),
{
    if d.len() == 0 { 0 } else { digits_value(d.drop_last()) * 10 + (d.last() - 48) }
}

/// The millionths that the digits after a point stand for: the first six, the rest dropped.
pub open spec fn fraction_value(f: Seq<u8>) -> int {
    if f.len() >= 6 {
        digits_value(f.subrange(0, 6))
    } else {
        digits_value(f) * pow10((6 - f.len()) as nat)
    }
}

/// The length of the number written at `p` (digits, then a point and digits
/// if a digit follows the point) and its value in millionths.
pub open spec fn number_at(s: Seq<u8>, p: int) -> (int, int) {
    let d = digit_run(s, p) as int;
    let whole = digits_value(s.subrange(p, p + d));
    if p + d + 1 < s.len() && s[p + d] == 46 && is_digit(s[p + d + 1]) {
        let f = digit_run(s, p + d + 1) as int;
        (d + 1 + f, whole * UNIT + fraction_value(s.subrange(p + d + 1, p + d + 1 + f)))
    } else {
        (d, whole * UNIT)
    }
}

/// A point after the digits at `p` that neither a digit nor another point follows.
pub open spec fn trailing_dot(s: Seq<u8>, p: int) -> bool {
    let d = digit_run(s, p) as int;
    p + d < s.len() && s[p + d] == 46 && !(p + d + 1 < s.len() && (is_digit(s[p + d + 1]) || s[p + d + 1] == 46))
}

/// The operator written at `p`, and its length: the longest that matches.
pub open spec fn op_at(s: Seq<u8>, p: int) -> Option<(Op, int)> {
    if starts_at(s, p, seq![46u8, 46u8, 61u8]) {
        Some((Op::RangeInclusive, 3))
    } else if starts_at(s, p, seq![46u8, 46u8]) {
        Some((Op::Range, 2))
    } else if starts_at(s, p, seq![43u8, 43u8]) {
        Some((Op::Concat, 2))
    } else if starts_at(s, p, seq![43u8]) {
        Some((Op::Add, 1))
    } else if starts_at(s, p, seq![45u8]) {
        Some((Op::Sub, 1))
    } else if starts_at(s, p, seq![42u8]) {
        Some((Op::Mul, 1))
    } else if starts_at(s, p, seq![47u8]) {
        Some((Op::Div, 1))
    } else {
        None
    }
}

impl Lexer {
    fn byte_is(&self, n: usize, c: u8) -> (r: bool)
        requires
            self.wf(),
        ensures
            r == (self.pos() + n < self.bytes().len() && self.bytes()[self.pos() + n] == c),
    {
        n < self.input.len() - self.position && self.input[self.position + n] == c
    }

    fn run_len(&self, from: usize, kind: u8) -> (n: usize)
        requires
            self.wf(),
            from <= self.input@.len(),
        ensures
            n == run(self.input@, from as int, kind),
            from + n <= self.input@.len(),
    {
        let mut n: usize = 0;
        while from + n < self.input.len() && class_has(kind, self.input[from + n])
            invariant
                self.wf(),
                from + n <= self.input@.len(),
                run(self.input@, from as int, kind) == n + run(self.input@, from + n, kind),
            decreases self.input@.len() - from - n,
        {
            n += 1;
        }
        n
    }

    fn slice_from(&self, from: usize, n: usize) -> (r: Vec<u8>)
        requires
            from + n <= self.input@.len(),
            self.input@.len() < usize::MAX,
        ensures
            r@ == self.input@.subrange(from as int, from + n),
    {
        let mut r: Vec<u8> = Vec::new();
        let mut i: usize = 0;
        while i < n
            invariant
                from + n <= self.input@.len(),
                self.input@.len() < usize::MAX,
                i <= n,
                r@ == self.input@.subrange(from as int, from + i),
            decreases n - i,
        {
            r.push(self.input[from + i]);
            i += 1;
            assert(r@ =~= self.input@.subrange(from as int, from + i));
        }
        r
    }

    /// Takes a symbol: a letter, then letters, digits, `_` and `-`.
    pub fn try_symbol(&mut self) -> (r: Option<Vec<u8>>)
        requires
            old(self).wf(),
        ensures
            final(self).wf(),
            final(self).bytes() == old(self).bytes(),
            r is Some == is_alpha(old(self).byte_ahead(0)),
            r matches Some(t) ==> {
                let n = symbol_run(old(self).bytes(), old(self).pos());
                &&& t@ == old(self).bytes().subrange(old(self).pos(), old(self).pos() + n)
                &&& final(self).pos() == old(self).pos() + n
            },
            r is None ==> final(self).pos() == old(self).pos(),
    {
        let c = self.at(0);
        if !((65 <= c && c <= 90) || (97 <= c && c <= 122)) {
            return None;
        }
        let n = self.run_len(self.position, 0);
        let t = self.slice_from(self.position, n);
        self.advance(n);
        Some(t)
    }

    /// Takes a quoted string, `"..."` or `'...'`, and gives what stands between the quotes.
    pub fn try_string(&mut self) -> (r: Result<Option<Vec<u8>>, Error>)
        requires
            old(self).wf(),
        ensures
            final(self).wf(),
            final(self).bytes() == old(self).bytes(),
            old(self).pos() <= final(self).pos(),
            ({
                let s = old(self).bytes();
                let p = old(self).pos();
                let q = old(self).byte_ahead(0);
                if q != 34 && q != 39 {
                    r matches Ok(None) && final(self).pos() == p
                } else if string_body(s, p + 1, q) is Some {
                    let (t, k) = string_body(s, p + 1, q)->Some_0;
                    r matches Ok(Some(x)) && x@ == t && final(self).pos() == k + 1 && k > p
                } else {
                    r matches Err(e) && e@ == crate::semantics::fault(ErrorKind::UnclosedString, Seq::empty(), Some(place(s, p)))
                }
            }),
    {
        let q = self.at(0);
        if q != 34 && q != 39 {
            return Ok(None);
        }
        let ghost s = self.input@;
        let ghost p = self.position as int;
        let mut k = self.position + 1;
        let mut out: Vec<u8> = Vec::new();
        proof {
            match string_body(s, k as int, q) {
                Some((t, e)) => { assert(out@ + t =~= t); },
                None => {},
            }
        }
        while k < self.input.len() && self.input[k] != q
            invariant
                self.wf(),
                self.input@ == s,
                self.position as int == p,
                q == s[p],
                p + 1 <= k <= s.len(),
                string_body(s, p + 1, q) == match string_body(s, k as int, q) {
                    Some((t, e)) => Some((out@ + t, e)),
                    None => None::<(Seq<u8>, int)>,
                },
            decreases s.len() - k,
        {
            let c = self.input[k];
            let ghost before = out@;
            if c == 92 && k + 1 < self.input.len() && self.input[k + 1] == q {
                out.push(q);
                proof {
                    match string_body(s, k + 2, q) {
                        Some((t, e)) => { assert(before + (seq![q] + t) =~= out@ + t); },
                        None => {},
                    }
                }
                k += 2;
            } else {
                out.push(c);
                proof {
                    match string_body(s, k + 1, q) {
                        Some((t, e)) => { assert(before + (seq![c] + t) =~= out@ + t); },
                        None => {},
                    }
                }
                k += 1;
            }
        }
        if k == self.input.len() {
            return Err(Error::bare(ErrorKind::UnclosedString, Some(self.position())));
        }
        proof { assert(out@ + Seq::<u8>::empty() =~= out@); }
        self.advance(k - self.position + 1);
        Ok(Some(out))
    }

    /// Takes `#` and the hex digits after it, and gives the digits.
    pub fn try_hex(&mut self) -> (r: Result<Option<Vec<u8>>, Error>)
        requires
            old(self).wf(),
        ensures
            final(self).wf(),
            final(self).bytes() == old(self).bytes(),
            old(self).pos() <= final(self).pos(),
            ({
                let s = old(self).bytes();
                let p = old(self).pos();
                let n = hex_run(s, p + 1);
                if old(self).byte_ahead(0) != 35 {
                    r matches Ok(None) && final(self).pos() == p
                } else if n == 0 {
                    r matches Err(e) && e@ == crate::semantics::fault(ErrorKind::ExpectedHex, Seq::empty(), Some(place(s, p + 1)))
                } else {
                    r matches Ok(Some(t)) && t@ == s.subrange(p + 1, p + 1 + n) && final(self).pos() == p + 1 + n
                }
            }),
    {
        if self.at(0) != 35 {
            return Ok(None);
        }
        let n = self.run_len(self.position + 1, 2);
        if n == 0 {
            return Err(Error::bare(ErrorKind::ExpectedHex, Some(self.position_at(1))));
        }
        let t = self.slice_from(self.position + 1, n);
        self.advance(n + 1);
        Ok(Some(t))
    }

    /// Takes `true` or `false`.
    pub fn try_bool(&mut self) -> (r: Option<bool>)
        requires
            old(self).wf(),
        ensures
            final(self).wf(),
            final(self).bytes() == old(self).bytes(),
            ({
                let s = old(self).bytes();
                let p = old(self).pos();
                if starts_at(s, p, seq![116u8, 114u8, 117u8, 101u8]) {
                    r == Some(true) && final(self).pos() == p + 4
                } else if starts_at(s, p, seq![102u8, 97u8, 108u8, 115u8, 101u8]) {
                    r == Some(false) && final(self).pos() == p + 5
                } else {
                    r is None && final(self).pos() == p
                }
            }),
    {
        if self.try_peek(&[116u8, 114u8, 117u8, 101u8]) {
            Some(true)
        } else if self.try_peek(&[102u8, 97u8, 108u8, 115u8, 101u8]) {
            Some(false)
        } else {
            None
        }
    }

    /// Takes spaces and tabs, then a binary operator. `+ - * / ++` count only with
    /// a space or tab after them; `..` and `..=` count anywhere. Takes nothing when none is there.
    pub fn try_binary_op(&mut self) -> (r: Option<Op>)
        requires
            old(self).wf(),
        ensures
            final(self).wf(),
            final(self).bytes() == old(self).bytes(),
            ({
                let s = old(self).bytes();
                let p = old(self).pos();
                let n = blank_run(s, p) as int;
                match op_at(s, p + n) {
                    Some((op, len)) => if op == Op::Range || op == Op::RangeInclusive
                        || (p + n + len < s.len() && is_blank(s[p + n + len])) {
                        r == Some(op) && final(self).pos() == p + n + len
                    } else {
                        r is None && final(self).pos() == p
                    },
                    None => r is None && final(self).pos() == p,
                }
            }),
    {
        let n = self.run_len(self.position, 3);
        let (op, len): (Op, usize) = match self.op_here(n) {
            Some(x) => x,
            None => {
                return None;
            },
        };
        let after = self.at(n + len);
        if op == Op::Range || op == Op::RangeInclusive || (n + len < self.input.len() - self.position
            && (after == SPACE || after == TAB)) {
            self.advance(n + len);
            Some(op)
        } else {
            None
        }
    }

    fn op_here(&self, n: usize) -> (r: Option<(Op, usize)>)
        requires
            self.wf(),
            self.pos() + n <= self.bytes().len(),
        ensures
            match op_at(self.bytes(), self.pos() + n) {
                Some((op, len)) => r == Some((op, len as usize)) && self.pos() + n + len <= self.bytes().len(),
                None => r is None,
            },
    {
        let q = self.position + n;
        if self.has3(q, 46, 46, 61) {
            Some((Op::RangeInclusive, 3))
        } else if self.has2(q, 46, 46) {
            Some((Op::Range, 2))
        } else if self.has2(q, 43, 43) {
            Some((Op::Concat, 2))
        } else if self.has1(q, 43) {
            Some((Op::Add, 1))
        } else if self.has1(q, 45) {
            Some((Op::Sub, 1))
        } else if self.has1(q, 42) {
            Some((Op::Mul, 1))
        } else if self.has1(q, 47) {
            Some((Op::Div, 1))
        } else {
            None
        }
    }

    fn has1(&self, q: usize, a: u8) -> (r: bool)
        requires
            self.wf(),
            q <= self.input@.len(),
        ensures
            r == starts_at(self.input@, q as int, seq![a]),
    {
        let r = q < self.input.len() && self.input[q] == a;
        if q + 1 <= self.input.len() {
            assert(r ==> self.input@.subrange(q as int, q + 1) =~= seq![a]);
            assert(self.input@.subrange(q as int, q + 1) == seq![a] ==> self.input@.subrange(q as int, q + 1)[0] == a);
        }
        r
    }

    fn has2(&self, q: usize, a: u8, b: u8) -> (r: bool)
        requires
            self.wf(),
            q <= self.input@.len(),
        ensures
            r == starts_at(self.input@, q as int, seq![a, b]),
    {
        let r = self.input.len() - q > 1 && self.input[q] == a && self.input[q + 1] == b;
        if self.input.len() - q >= 2 {
            let ghost t = self.input@.subrange(q as int, q + 2);
            assert(r ==> t =~= seq![a, b]);
            assert(t == seq![a, b] ==> t[0] == a && t[1] == b);
        }
        r
    }

    fn has3(&self, q: usize, a: u8, b: u8, c: u8) -> (r: bool)
        requires
            self.wf(),
            q <= self.input@.len(),
        ensures
            r == starts_at(self.input@, q as int, seq![a, b, c]),
    {
        let r = self.input.len() - q > 2 && self.input[q] == a && self.input[q + 1] == b && self.input[q + 2] == c;
        if self.input.len() - q >= 3 {
            let ghost t = self.input@.subrange(q as int, q + 3);
            assert(r ==> t =~= seq![a, b, c]);
            assert(t == seq![a, b, c] ==> t[0] == a && t[1] == b && t[2] == c);
        }
        r
    }

    /// Takes whitespace, then `->`.
    pub fn try_arrow(&mut self) -> (r: bool)
        requires
            old(self).wf(),
        ensures
            final(self).wf(),
            final(self).bytes() == old(self).bytes(),
            r == starts_at(old(self).bytes(), ws_end(old(self).bytes(), old(self).pos()), seq![45u8, 62u8]),
            final(self).pos() == if r { ws_end(old(self).bytes(), old(self).pos()) + 2 } else { old(self).pos() },
    {
        let p = self.skip_ws_from(self.position);
        if self.peek_from(p, &[45u8, 62u8]) {
            self.advance(p - self.position + 2);
            true
        } else {
            false
        }
    }

    fn skip_ws_from(&self, from: usize) -> (p: usize)
        requires
            self.wf(),
            from <= self.input@.len(),
        ensures
            p == ws_end(self.input@, from as int),
            from <= p <= self.input@.len(),
    {
        let mut p = from;
        while p < self.input.len() && self.is_whitespace(&self.input[p])
            invariant
                self.wf(),
                from <= p <= self.input@.len(),
                ws_end(self.input@, from as int) == ws_end(self.input@, p as int),
            decreases self.input@.len() - p,
        {
            p += 1;
        }
        p
    }

    /// Takes a number: digits, then a point and digits if a digit follows the
    /// point, and gives its value in millionths. A point that neither a digit
    /// nor a second point follows is an error; so is a value past `i64`.
    pub fn try_number(&mut self) -> (r: Result<Option<i64>, Error>)
        requires
            old(self).wf(),
        ensures
            final(self).wf(),
            final(self).bytes() == old(self).bytes(),
            old(self).pos() <= final(self).pos(),
            ({
                let s = old(self).bytes();
                let p = old(self).pos();
                let (len, v) = number_at(s, p);
                if !is_digit(old(self).byte_ahead(0)) {
                    r matches Ok(None) && final(self).pos() == p
                } else if trailing_dot(s, p) {
                    r matches Err(e) && e@ == crate::semantics::fault(ErrorKind::TrailingDot, Seq::empty(), Some(place(s, p + digit_run(s, p) + 1)))
                } else if v > 0x7fff_ffff_ffff_ffff {
                    r matches Err(e) && e@ == crate::semantics::fault(ErrorKind::NumberOutOfRange, Seq::empty(), Some(place(s, p)))
                } else {
                    r matches Ok(Some(x)) && x == v && x >= 0 && final(self).pos() == p + len
                }
            }),
    {
        let c = self.at(0);
        if !(48 <= c && c <= 57) {
            return Ok(None);
        }
        let ghost s = self.input@;
        let ghost p = self.position as int;
        let d = self.run_len(self.position, 1);
        proof { lemma_run_bound(s, p, 1); }
        let has_frac = self.byte_is(d, 46) && d + 1 < self.input.len() - self.position
            && 48 <= self.input[self.position + d + 1] && self.input[self.position + d + 1] <= 57;
        if !has_frac && self.byte_is(d, 46) && !self.byte_is(d + 1, 46) {
            return Err(Error::bare(ErrorKind::TrailingDot, Some(self.position_at(d + 1))));
        }
        let whole = match self.digits_at(self.position, d) {
            Some(w) => w,
            None => {
                proof {
                    let w = digits_value(s.subrange(p, p + d));
                    assert(w * UNIT > 0x7fff_ffff_ffff_ffff) by (nonlinear_arith)
                        requires w > 9223372036854;
                    let (len, v) = number_at(s, p);
                    if p + d + 1 < s.len() && s[p + d] == 46 && is_digit(s[p + d + 1]) {
                        let f = digit_run(s, p + d + 1) as int;
                        lemma_run_bound(s, p + d + 1, 1);
                        let fs = s.subrange(p + d + 1, p + d + 1 + f);
                        assert forall|k: int| 0 <= k < fs.len() implies is_digit(#[trigger] fs[k]) by {
                            assert(in_class(1, s[p + d + 1 + k]));
                        }
                        self.lemma_fraction_nonneg(fs);
                    }
                }
                return Err(Error::bare(ErrorKind::NumberOutOfRange, Some(self.position())));
            },
        };
        let mut frac: u64 = 0;
        let mut len = d;
        if has_frac {
            let f = self.run_len(self.position + d + 1, 1);
            proof { lemma_run_bound(s, p + d + 1, 1); }
            frac = self.fraction_at(self.position + d + 1, f);
            len = d + 1 + f;
        }
        let total: u128 = whole as u128 * 1000000 + frac as u128;
        if total > 0x7fff_ffff_ffff_ffff {
            return Err(Error::bare(ErrorKind::NumberOutOfRange, Some(self.position())));
        }
        self.advance(len);
        Ok(Some(total as i64))
    }

    /// The value of `n` digits at `from`, or `None` when it passes `i64::MAX / UNIT`.
    fn digits_at(&self, from: usize, n: usize) -> (r: Option<u64>)
        requires
            from + n <= self.input@.len(),
            self.input@.len() < usize::MAX,
            forall|k: int| from <= k < from + n ==> is_digit(#[trigger] self.input@[k]),
        ensures
            r matches Some(v) ==> v == digits_value(self.input@.subrange(from as int, from + n)),
            r is None ==> digits_value(self.input@.subrange(from as int, from + n)) > 9223372036854,
    {
        let mut v: u64 = 0;
        let mut i: usize = 0;
        while i < n
            invariant
                from + n <= self.input@.len(),
                self.input@.len() < usize::MAX,
                i <= n,
                forall|k: int| from <= k < from + n ==> is_digit(#[trigger] self.input@[k]),
                v == digits_value(self.input@.subrange(from as int, from + i)),
                v <= 9223372036854,
            decreases n - i,
        {
            let c = self.input[from + i];
            assert(is_digit(self.input@[from + i]));
            proof {
                let t = self.input@.subrange(from as int, from + i + 1);
                assert(t.drop_last() =~= self.input@.subrange(from as int, from + i));
            }
            if v > 922337203685 || (v == 922337203685 && c - 48 > 4) {
                proof { self.lemma_digits_grow(from, i, n); }
                return None;
            }
            v = v * 10 + (c - 48) as u64;
            i += 1;
        }
        Some(v)
    }

    proof fn lemma_digits_grow(&self, from: usize, i: usize, n: usize)
        requires
            from + n <= self.input@.len(),
            i < n,
            forall|k: int| from <= k < from + n ==> is_digit(#[trigger] self.input@[k]),
            digits_value(self.input@.subrange(from as int, from + i)) * 10 + (self.input@[from + i] - 48) > 9223372036854,
        ensures
            digits_value(self.input@.subrange(from as int, from + n)) > 9223372036854,
        decreases n - i,
    {
        let t = self.input@.subrange(from as int, from + i + 1);
        assert(t.drop_last() =~= self.input@.subrange(from as int, from + i));
        assert(digits_value(t) > 9223372036854);
        if i + 1 < n {
            let u = self.input@.subrange(from as int, from + i + 2);
            assert(u.drop_last() =~= t);
            assert(is_digit(self.input@[from + i + 1]));
            self.lemma_digits_grow(from, (i + 1) as usize, n);
        }
    }

    proof fn lemma_fraction_nonneg(&self, f: Seq<u8>)
        requires
            forall|k: int| 0 <= k < f.len() ==> is_digit(#[trigger] f[k]),
        ensures
            fraction_value(f) >= 0,
    {
        lemma_digits_nonneg(f);
        if f.len() >= 6 {
            lemma_digits_nonneg(f.subrange(0, 6));
        } else {
            assert(digits_value(f) * pow10((6 - f.len()) as nat) >= 0) by (nonlinear_arith)
                requires digits_value(f) >= 0;
        }
    }

    /// The millionths that `n` digits at `from`, after a point, stand for.
    fn fraction_at(&self, from: usize, n: usize) -> (r: u64)
        requires
            from + n <= self.input@.len(),
            self.input@.len() < usize::MAX,
            forall|k: int| from <= k < from + n ==> is_digit(#[trigger] self.input@[k]),
        ensures
            r == fraction_value(self.input@.subrange(from as int, from + n)),
            r < 1000000,
    {
        let m: usize = if n < 6 { n } else { 6 };
        let mut v: u64 = 0;
        let mut i: usize = 0;
        while i < m
            invariant
                from + n <= self.input@.len(),
                self.input@.len() < usize::MAX,
                m <= n,
                m <= 6,
                i <= m,
                forall|k: int| from <= k < from + n ==> is_digit(#[trigger] self.input@[k]),
                v == digits_value(self.input@.subrange(from as int, from + i)),
                v < pow10(i as nat),
            decreases m - i,
        {
            let c = self.input[from + i];
            assert(is_digit(self.input@[from + i]));
            proof {
                let t = self.input@.subrange(from as int, from + i + 1);
                assert(t.drop_last() =~= self.input@.subrange(from as int, from + i));
                reveal_with_fuel(pow10, 7);
            }
            v = v * 10 + (c - 48) as u64;
            i += 1;
        }
        proof {
            reveal_with_fuel(pow10, 7);
            let f = self.input@.subrange(from as int, from + n);
            if n >= 6 {
                assert(f.subrange(0, 6) =~= self.input@.subrange(from as int, from + 6));
            } else {
                assert(f =~= self.input@.subrange(from as int, from + m));
            }
        }
        let mut k = m;
        assert(v == digits_value(self.input@.subrange(from as int, from + m)) * pow10(0)) by {
            reveal_with_fuel(pow10, 1);
        }
        while k < 6
            invariant
                from + n <= self.input@.len(),
                m <= n,
                m <= 6,
                m <= k <= 6,
                v == digits_value(self.input@.subrange(from as int, from + m)) * pow10((k - m) as nat),
                v < pow10(k as nat),
            decreases 6 - k,
        {
            proof {
                reveal_with_fuel(pow10, 7);
                let dv = digits_value(self.input@.subrange(from as int, from + m));
                assert(pow10((k + 1 - m) as nat) == 10 * pow10((k - m) as nat));
                assert(dv * pow10((k - m) as nat) * 10 == dv * (10 * pow10((k - m) as nat))) by (nonlinear_arith);
            }
            v = v * 10;
            k += 1;
        }
        proof { reveal_with_fuel(pow10, 7); }
        v
    }
}

fn class_has(kind: u8, c: u8) -> (r: bool)
    ensures
        r == in_class(kind, c),
{
    if kind == 0 {
        (65 <= c && c <= 90) || (97 <= c && c <= 122) || (48 <= c && c <= 57) || c == 95 || c == 45
    } else if kind == 1 {
        48 <= c && c <= 57
    } else if kind == 2 {
        (48 <= c && c <= 57) || (65 <= c && c <= 70) || (97 <= c && c <= 102)
    } else if kind == 3 {
        c == SPACE || c == TAB
    } else if kind == 4 {
        (65 <= c && c <= 90) || (97 <= c && c <= 122) || (48 <= c && c <= 57) || c == 95 || c == 45 || c == 33
    } else {
        (65 <= c && c <= 90) || (97 <= c && c <= 122) || (48 <= c && c <= 57) || c == 95
    }
}

proof fn lemma_digits_nonneg(d: Seq<u8>)
    requires
        forall|k: int| 0 <= k < d.len() ==> is_digit(#[trigger] d[k]),
    ensures
        digits_value(d) >= 0,
    decreases d.len(),
{
    if d.len() > 0 {
        lemma_digits_nonneg(d.drop_last());
    }
}

/// Where the whitespace from `p` on ends.
pub open spec fn ws_end(s: Seq<u8>, p: int) -> int
    decreases s.len() - p,
{
    if 0 <= p < s.len() && is_ws(s[p]) { ws_end(s, p + 1) } else { p }
}


pub broadcast proof fn lemma_lexer_wf(lx: Lexer)
    requires
        #[trigger] lx.wf(),
    ensures
        0 <= lx.pos() <= lx.bytes().len(),
        lx.bytes().len() < usize::MAX,
{
}

/// A saved place in the input, to come back to.
pub struct Mark {
    position: usize,
    line: usize,
    col: usize,
}

impl Mark {
    pub closed spec fn pos(&self) -> int {
        self.position as int
    }

    /// The mark is a place in `s`, with its line and column.
    pub closed spec fn fits(&self, s: Seq<u8>) -> bool {
        &&& self.position <= s.len()
        &&& self.line == line_at(s, self.position as int)
        &&& self.col == col_at(s, self.position as int)
    }
}

impl Lexer {
    pub fn mark(&self) -> (m: Mark)
        requires
            self.wf(),
        ensures
            m.pos() == self.pos(),
            m.fits(self.bytes()),
    {
        Mark { position: self.position, line: self.line, col: self.col }
    }

    /// The `(line, column)` of a saved place.
    pub fn position_of_mark(&self, m: &Mark) -> (r: (usize, usize))
        requires
            m.fits(self.bytes()),
        ensures
            r == place(self.bytes(), m.pos()),
    {
        (m.line, m.col)
    }

    /// Goes back (or on) to a saved place.
    pub fn reset(&mut self, m: Mark)
        requires
            old(self).wf(),
            m.fits(old(self).bytes()),
        ensures
            final(self).wf(),
            final(self).bytes() == old(self).bytes(),
            final(self).pos() == m.pos(),
    {
        self.position = m.position;
        self.line = m.line;
        self.col = m.col;
    }

    pub fn len_exec(&self) -> (r: usize)
        requires
            self.wf(),
        ensures
            r == self.bytes().len(),
    {
        self.input.len()
    }

    pub fn pos_exec(&self) -> (r: usize)
        requires
            self.wf(),
        ensures
            r == self.pos(),
    {
        self.position
    }

    /// Skips spaces and tabs.
    pub fn skip_blanks(&mut self)
        requires
            old(self).wf(),
        ensures
            final(self).wf(),
            final(self).bytes() == old(self).bytes(),
            final(self).pos() == old(self).pos() + blank_run(old(self).bytes(), old(self).pos()),
    {
        let n = self.run_len(self.position, 3);
        self.advance(n);
    }

    /// The number of spaces and tabs from the position on.
    pub fn blank_len(&self) -> (n: usize)
        requires
            self.wf(),
        ensures
            n == blank_run(self.bytes(), self.pos()),
            self.pos() + n <= self.bytes().len(),
    {
        self.run_len(self.position, 3)
    }

    /// The number of keyword bytes (letters, digits, `_`, `-`, `!`) from the position on.
    pub fn keyword_len(&self) -> (n: usize)
        requires
            self.wf(),
        ensures
            n == run(self.bytes(), self.pos(), 4),
            self.pos() + n <= self.bytes().len(),
    {
        self.run_len(self.position, 4)
    }

    /// The `n` bytes from the position on.
    pub fn take(&mut self, n: usize) -> (r: Vec<u8>)
        requires
            old(self).wf(),
            old(self).pos() + n <= old(self).bytes().len(),
        ensures
            final(self).wf(),
            final(self).bytes() == old(self).bytes(),
            final(self).pos() == old(self).pos() + n,
            r@ == old(self).bytes().subrange(old(self).pos(), old(self).pos() + n),
    {
        let r = self.slice_from(self.position, n);
        self.advance(n);
        r
    }

    /// Takes the end of a line: spaces and tabs, a `//` comment if one follows,
    /// then a line break or the end of the input. Takes nothing when the line goes on.
    pub fn try_line_end(&mut self) -> (r: bool)
        requires
            old(self).wf(),
        ensures
            final(self).wf(),
            final(self).bytes() == old(self).bytes(),
            match line_end(old(self).bytes(), old(self).pos()) {
                Some(q) => r && final(self).pos() == q,
                None => !r && final(self).pos() == old(self).pos(),
            },
            r ==> final(self).pos() >= old(self).pos(),
            r ==> final(self).pos() > old(self).pos() || old(self).pos() == old(self).bytes().len(),
    {
        let n = self.run_len(self.position, 3);
        proof { lemma_run_bound(self.input@, self.position as int, 3); }
        let mut k = self.position + n;
        if k + 1 < self.input.len() && self.input[k] == 47 && self.input[k + 1] == 47 {
            let ghost k0 = k as int;
            while k < self.input.len() && self.input[k] != NEWLINE && self.input[k] != RETURN
                invariant
                    self.wf(),
                    self.position <= k0 <= k <= self.input@.len(),
                    break_from(self.input@, k0) == break_from(self.input@, k as int),
                decreases self.input@.len() - k,
            {
                k += 1;
            }
        }
        if k == self.input.len() {
            self.advance(k - self.position);
            true
        } else if self.input[k] == NEWLINE || self.input[k] == RETURN {
            self.advance(k - self.position + 1);
            true
        } else {
            false
        }
    }
}


/// A token of glaze source. Numbers are in millionths.
#[derive(Debug)]
pub enum Token {
    /// Its text, without `/*` and `*/`.
    MultilineComment(Vec<u8>),
    Newline,
    /// A tab, or four spaces.
    Indent,
    Ident(Vec<u8>),
    Selector(Vec<u8>),
    /// A name followed by `(`, without the `(`.
    Function(Vec<u8>),
    AtRule(Vec<u8>),
    Hash(Vec<u8>),
    /// Its text, without the quotes.
    Str(Vec<u8>),
    Number(i64),
    Dimension(i64, Vec<u8>),
    Percentage(i64),
    Important,
    Operator(Vec<u8>),
    Colon,
    Comma,
    CloseParen,
}

/// The tokens that the lexer makes.
#[derive(Debug, Clone, Copy, PartialEq, Eq, Structural)]
pub enum TokenKind {
    Comment,
    Newline,
    Indent,
    Ident,
    Function,
    Str,
    Number,
    Colon,
    Comma,
    CloseParen,
}

/// The first `*/` at or after `k`.
pub open spec fn comment_close(s: Seq<u8>, k: int) -> Option<int>
    decreases s.len() - k,
{
    if k < 0 || k + 1 >= s.len() {
        None
    } else if s[k] == 42 && s[k + 1] == 47 {
        Some(k)
    } else {
        comment_close(s, k + 1)
    }
}

/// The text of a string from `k` up to its closing quote `q`, in which `\` before
/// `q` stands for `q` itself; and where the closing quote stands.
pub open spec fn string_body(s: Seq<u8>, k: int, q: u8) -> Option<(Seq<u8>, int)>
    decreases s.len() - k,
{
    if k < 0 || k >= s.len() {
        None
    } else if s[k] == q {
        Some((Seq::empty(), k))
    } else if s[k] == 92 && k + 1 < s.len() && s[k + 1] == q {
        match string_body(s, k + 2, q) {
            Some((t, e)) => Some((seq![q] + t, e)),
            None => None,
        }
    } else {
        match string_body(s, k + 1, q) {
            Some((t, e)) => Some((seq![s[k]] + t, e)),
            None => None,
        }
    }
}

/// The first `q` at or after `k`.
pub open spec fn byte_from(s: Seq<u8>, k: int, q: u8) -> Option<int>
    decreases s.len() - k,
{
    if k < 0 || k >= s.len() {
        None
    } else if s[k] == q {
        Some(k)
    } else {
        byte_from(s, k + 1, q)
    }
}

/// Where a `//` comment that starts before `k` ends: after its line break, or at the end.
pub open spec fn line_comment_end(s: Seq<u8>, k: int) -> int
    decreases s.len() - k,
{
    if k < 0 || k >= s.len() {
        s.len() as int
    } else if s[k] == NEWLINE || s[k] == RETURN || s[k] == FORM_FEED {
        k + 1
    } else {
        line_comment_end(s, k + 1)
    }
}

/// The length of the digits at `p` with at most one point among them.
pub open spec fn number_len(s: Seq<u8>, p: int) -> int {
    let d = digit_run(s, p) as int;
    if p + d < s.len() && s[p + d] == 46 {
        d + 1 + digit_run(s, p + d + 1)
    } else {
        d
    }
}

/// The value in millionths of digits with at most one point among them.
pub open spec fn unsigned_value(t: Seq<u8>) -> int {
    let d = digit_run(t, 0) as int;
    digits_value(t.subrange(0, d)) * UNIT + if d < t.len() {
        fraction_value(t.subrange(d + 1, t.len() as int))
    } else {
        0
    }
}

/// The value in millionths of a number token's text, `-` in front or not.
pub open spec fn token_number(t: Seq<u8>) -> int {
    if t.len() > 0 && t[0] == 45 {
        -unsigned_value(t.drop_first())
    } else {
        unsigned_value(t)
    }
}

/// The token at `p`: its kind, where its text begins and ends, and where the
/// next token may begin. Spaces that do not make an indent, and `//` comments, are skipped.
pub open spec fn scan(s: Seq<u8>, p: int) -> Result<Option<(TokenKind, int, int, int)>, ErrorKind>
    decreases s.len() - p,
{
    if p < 0 || p >= s.len() {
        Ok(None)
    } else {
        let c = s[p];
        if c == TAB {
            Ok(Some((TokenKind::Indent, p, p, p + 1)))
        } else if c == SPACE {
            if starts_at(s, p, seq![SPACE, SPACE, SPACE, SPACE]) {
                Ok(Some((TokenKind::Indent, p, p, p + 4)))
            } else {
                scan(s, p + 1)
            }
        } else if c == NEWLINE || c == RETURN || c == FORM_FEED {
            Ok(Some((TokenKind::Newline, p, p, p + 1)))
        } else if c == 58 {
            Ok(Some((TokenKind::Colon, p, p, p + 1)))
        } else if c == 44 {
            Ok(Some((TokenKind::Comma, p, p, p + 1)))
        } else if c == 41 {
            Ok(Some((TokenKind::CloseParen, p, p, p + 1)))
        } else if c == 47 {
            if p + 1 < s.len() && s[p + 1] == 42 {
                match comment_close(s, p + 2) {
                    Some(k) => Ok(Some((TokenKind::Comment, p + 2, k, k + 2))),
                    None => Err(ErrorKind::UnclosedComment),
                }
            } else if p + 1 < s.len() && s[p + 1] == 47 {
                proof {
                    lemma_line_comment_end(s, p + 2);
                }
                scan(s, line_comment_end(s, p + 2))
            } else {
                Err(ErrorKind::UnrecognizedToken)
            }
        } else if c == 34 || c == 39 {
            match byte_from(s, p + 1, c) {
                Some(k) => Ok(Some((TokenKind::Str, p + 1, k, k + 1))),
                None => Err(ErrorKind::UnclosedString),
            }
        } else if c == 45 {
            if p + 1 < s.len() && (s[p + 1] == 45 || is_alpha(s[p + 1]) || s[p + 1] == 95) {
                let e = p + 2 + run(s, p + 2, 0);
                Ok(Some((TokenKind::Ident, p, e, e)))
            } else if p + 1 < s.len() && is_digit(s[p + 1]) {
                let e = p + 1 + number_len(s, p + 1);
                if unsigned_value(s.subrange(p + 1, e)) > 0x7fff_ffff_ffff_ffff {
                    Err(ErrorKind::NumberOutOfRange)
                } else {
                    Ok(Some((TokenKind::Number, p, e, e)))
                }
            } else {
                Err(ErrorKind::UnrecognizedToken)
            }
        } else if is_alpha(c) || c == 95 {
            let e = p + run(s, p, 5);
            if e < s.len() && s[e] == 40 {
                Ok(Some((TokenKind::Function, p, e, e + 1)))
            } else {
                Ok(Some((TokenKind::Ident, p, e, e)))
            }
        } else if is_digit(c) {
            let e = p + number_len(s, p);
            if unsigned_value(s.subrange(p, e)) > 0x7fff_ffff_ffff_ffff {
                Err(ErrorKind::NumberOutOfRange)
            } else {
                Ok(Some((TokenKind::Number, p, e, e)))
            }
        } else {
            Err(ErrorKind::UnrecognizedToken)
        }
    }
}

/// `t` is a token of kind `kind` whose text is `s[a..b]`.
pub open spec fn token_fits(t: Token, s: Seq<u8>, kind: TokenKind, a: int, b: int) -> bool {
    let text = s.subrange(a, b);
    match kind {
        TokenKind::Comment => t matches Token::MultilineComment(x) && x@ == text,
        TokenKind::Newline => t is Newline,
        TokenKind::Indent => t is Indent,
        TokenKind::Ident => t matches Token::Ident(x) && x@ == text,
        TokenKind::Function => t matches Token::Function(x) && x@ == text,
        TokenKind::Str => t matches Token::Str(x) && x@ == text,
        TokenKind::Number => t matches Token::Number(v) && v == token_number(text),
        TokenKind::Colon => t is Colon,
        TokenKind::Comma => t is Comma,
        TokenKind::CloseParen => t is CloseParen,
    }
}

impl Lexer {
    /// The byte at the position, if any.
    pub fn next_byte(&self) -> (r: Option<u8>)
        requires
            self.wf(),
        ensures
            r == if self.pos() < self.bytes().len() { Some(self.bytes()[self.pos()]) } else { None::<u8> },
    {
        if self.has_at_least(0) {
            Some(self.input[self.position])
        } else {
            None
        }
    }

    /// The byte `offset` places ahead of the position.
    pub fn byte_at(&self, offset: usize) -> (r: u8)
        requires
            self.wf(),
            self.pos() + offset < self.bytes().len(),
        ensures
            r == self.bytes()[self.pos() + offset],
    {
        self.input[self.position + offset]
    }

    /// Whether the rest of the input starts with `needle`.
    pub fn starts_with(&self, needle: &[u8]) -> (r: bool)
        requires
            self.wf(),
        ensures
            r == starts_at(self.bytes(), self.pos(), needle@),
    {
        self.peek(needle)
    }

    fn has_at_least(&self, n: usize) -> (r: bool)
        requires
            self.wf(),
        ensures
            r == (self.pos() + n < self.bytes().len()),
    {
        n < self.input.len() - self.position
    }

    fn first_from(&self, k: usize, q: u8) -> (r: Option<usize>)
        requires
            self.wf(),
            k <= self.input@.len(),
        ensures
            match byte_from(self.input@, k as int, q) {
                Some(j) => r == Some(j as usize) && k <= j < self.input@.len(),
                None => r is None,
            },
    {
        proof { lemma_byte_from(self.input@, k as int, q); }
        let mut j = k;
        while j < self.input.len()
            invariant
                self.wf(),
                k <= j <= self.input@.len(),
                byte_from(self.input@, k as int, q) == byte_from(self.input@, j as int, q),
            decreases self.input@.len() - j,
        {
            if self.input[j] == q {
                return Some(j);
            }
            j += 1;
        }
        None
    }

    fn close_from(&self, k: usize) -> (r: Option<usize>)
        requires
            self.wf(),
            k <= self.input@.len(),
        ensures
            match comment_close(self.input@, k as int) {
                Some(j) => r == Some(j as usize) && k <= j && j + 1 < self.input@.len(),
                None => r is None,
            },
    {
        proof { lemma_comment_close(self.input@, k as int); }
        let mut j = k;
        while j + 1 < self.input.len()
            invariant
                self.wf(),
                k <= j <= self.input@.len(),
                comment_close(self.input@, k as int) == comment_close(self.input@, j as int),
            decreases self.input@.len() - j,
        {
            if self.input[j] == 42 && self.input[j + 1] == 47 {
                return Some(j);
            }
            j += 1;
        }
        None
    }

    fn line_end_from(&self, k: usize) -> (r: usize)
        requires
            self.wf(),
            k <= self.input@.len(),
        ensures
            r == line_comment_end(self.input@, k as int),
            k <= r <= self.input@.len(),
    {
        let mut j = k;
        while j < self.input.len()
            invariant
                self.wf(),
                k <= j <= self.input@.len(),
                line_comment_end(self.input@, k as int) == line_comment_end(self.input@, j as int),
            decreases self.input@.len() - j,
        {
            let c = self.input[j];
            if c == NEWLINE || c == RETURN || c == FORM_FEED {
                return j + 1;
            }
            j += 1;
        }
        j
    }

    /// The value of the number text `from..to` (digits, at most one point).
    fn number_value(&self, from: usize, to: usize) -> (r: Option<i64>)
        requires
            self.wf(),
            from <= to <= self.input@.len(),
            to == from + number_len(self.input@, from as int),
        ensures
            match r {
                Some(v) => v == unsigned_value(self.input@.subrange(from as int, to as int)) && v >= 0,
                None => unsigned_value(self.input@.subrange(from as int, to as int)) > 0x7fff_ffff_ffff_ffff,
            },
    {
        let ghost s = self.input@;
        let ghost t = s.subrange(from as int, to as int);
        let d = self.run_len(from, 1);
        proof {
            lemma_run_bound(s, from as int, 1);
            lemma_run_prefix(s, from as int, to as int, 1);
            assert(t.subrange(0, d as int) =~= s.subrange(from as int, from + d));
        }
        let whole = match self.digits_at(from, d) {
            Some(w) => w,
            None => {
                proof {
                    let w = digits_value(s.subrange(from as int, from + d));
                    assert(w * UNIT > 0x7fff_ffff_ffff_ffff) by (nonlinear_arith)
                        requires w > 9223372036854;
                    if d < t.len() {
                        let f = t.subrange(d + 1, t.len() as int);
                        lemma_run_bound(s, from + d + 1, 1);
                        assert forall|k: int| 0 <= k < f.len() implies is_digit(#[trigger] f[k]) by {
                            assert(f[k] == s[from + d + 1 + k]);
                            assert(in_class(1, s[from + d + 1 + k]));
                        }
                        self.lemma_fraction_nonneg(f);
                    }
                }
                return None;
            },
        };
        let mut frac: u64 = 0;
        if from + d < to {
            let f = to - from - d - 1;
            proof { lemma_run_bound(s, from + d + 1, 1); }
            frac = self.fraction_at(from + d + 1, f);
            assert(t.subrange(d + 1, t.len() as int) =~= s.subrange(from + d + 1, from + d + 1 + f));
        }
        let total: u128 = whole as u128 * 1000000 + frac as u128;
        if total > 0x7fff_ffff_ffff_ffff {
            return None;
        }
        Some(total as i64)
    }

    /// The next token, or `None` at the end of the input.
    pub fn next(&mut self) -> (r: Result<Option<Token>, Error>)
        requires
            old(self).wf(),
        ensures
            final(self).wf(),
            final(self).bytes() == old(self).bytes(),
            match scan(old(self).bytes(), old(self).pos()) {
                Ok(None) => r matches Ok(None),
                Ok(Some((kind, a, b, q))) => r matches Ok(Some(t)) && token_fits(t, old(self).bytes(), kind, a, b)
                    && final(self).pos() == q,
                Err(k) => r matches Err(e) && e.kind == k,
            },
    {
        let ghost s = self.input@;
        let ghost start_pos = self.position as int;
        loop
            invariant
                self.wf(),
                self.input@ == s,
                s == old(self).bytes(),
                start_pos == old(self).pos(),
                scan(s, start_pos) == scan(s, self.position as int),
            decreases s.len() - self.position,
        {
            let ghost p = self.position as int;
            let b = match self.next_byte() {
                None => {
                    return Ok(None);
                },
                Some(b) => b,
            };
            let pos = self.position;
            if b == SPACE && !self.four_spaces_here() {
                self.advance(1);
            } else if b == 47 && self.at(1) == 47 {
                let e = self.line_end_from(pos + 2);
                self.advance(e - pos);
            } else {
                return self.token_here();
            }
        }
    }

    fn four_spaces_here(&self) -> (r: bool)
        requires
            self.wf(),
        ensures
            r == starts_at(self.bytes(), self.pos(), seq![SPACE, SPACE, SPACE, SPACE]),
    {
        let r = self.input.len() - self.position >= 4 && self.four_spaces_at(self.position);
        if self.input.len() - self.position >= 4 {
            let ghost t = self.input@.subrange(self.pos(), self.pos() + 4);
            assert(r ==> t =~= seq![SPACE, SPACE, SPACE, SPACE]);
            assert(t == seq![SPACE, SPACE, SPACE, SPACE] ==> t[0] == SPACE && t[1] == SPACE && t[2] == SPACE && t[3] == SPACE);
        }
        r
    }

    /// The token at the position, which is not a skipped space or `//` comment.
    fn token_here(&mut self) -> (r: Result<Option<Token>, Error>)
        requires
            old(self).wf(),
            old(self).pos() < old(self).bytes().len(),
            !(old(self).bytes()[old(self).pos()] == SPACE
                && !starts_at(old(self).bytes(), old(self).pos(), seq![SPACE, SPACE, SPACE, SPACE])),
            !(old(self).bytes()[old(self).pos()] == 47 && old(self).byte_ahead(1) == 47),
        ensures
            final(self).wf(),
            final(self).bytes() == old(self).bytes(),
            match scan(old(self).bytes(), old(self).pos()) {
                Ok(None) => r matches Ok(None),
                Ok(Some((kind, a, b, q))) => r matches Ok(Some(t)) && token_fits(t, old(self).bytes(), kind, a, b)
                    && final(self).pos() == q,
                Err(k) => r matches Err(e) && e.kind == k,
            },
    {
        let ghost s = self.input@;
        let p = self.position;
        let c = self.input[p];
        let at = Some(self.position());
        if c == TAB {
            self.advance(1);
            Ok(Some(Token::Indent))
        } else if c == SPACE {
            self.advance(4);
            Ok(Some(Token::Indent))
        } else if c == NEWLINE || c == RETURN || c == FORM_FEED {
            self.advance(1);
            Ok(Some(Token::Newline))
        } else if c == 58 {
            self.advance(1);
            Ok(Some(Token::Colon))
        } else if c == 44 {
            self.advance(1);
            Ok(Some(Token::Comma))
        } else if c == 41 {
            self.advance(1);
            Ok(Some(Token::CloseParen))
        } else if c == 47 {
            if self.at(1) == 42 {
                match self.close_from(p + 2) {
                    Some(k) => {
                        let t = self.slice_from(p + 2, k - p - 2);
                        self.advance(k - p + 2);
                        Ok(Some(Token::MultilineComment(t)))
                    },
                    None => Err(Error::bare(ErrorKind::UnclosedComment, at)),
                }
            } else {
                Err(Error::bare(ErrorKind::UnrecognizedToken, at))
            }
        } else if c == 34 || c == 39 {
            match self.first_from(p + 1, c) {
                Some(k) => {
                    let t = self.slice_from(p + 1, k - p - 1);
                    self.advance(k - p + 1);
                    Ok(Some(Token::Str(t)))
                },
                None => Err(Error::bare(ErrorKind::UnclosedString, at)),
            }
        } else if c == 45 {
            let d = self.at(1);
            if self.has_at_least(1) && (d == 45 || (65 <= d && d <= 90) || (97 <= d && d <= 122) || d == 95) {
                let n = self.run_len(p + 2, 0);
                let t = self.slice_from(p, n + 2);
                self.advance(n + 2);
                Ok(Some(Token::Ident(t)))
            } else if self.has_at_least(1) && 48 <= d && d <= 57 {
                let e = self.number_end(p + 1);
                match self.number_value(p + 1, e) {
                    Some(v) => {
                        self.advance(e - p);
                        proof {
                            let text = s.subrange(p as int, e as int);
                            assert(text.drop_first() =~= s.subrange(p + 1, e as int));
                        }
                        Ok(Some(Token::Number(-v)))
                    },
                    None => Err(Error::bare(ErrorKind::NumberOutOfRange, at)),
                }
            } else {
                Err(Error::bare(ErrorKind::UnrecognizedToken, at))
            }
        } else if (65 <= c && c <= 90) || (97 <= c && c <= 122) || c == 95 {
            let n = self.run_len(p, 5);
            let t = self.slice_from(p, n);
            if self.has_at_least(n) && self.input[p + n] == 40 {
                self.advance(n + 1);
                Ok(Some(Token::Function(t)))
            } else {
                self.advance(n);
                Ok(Some(Token::Ident(t)))
            }
        } else if 48 <= c && c <= 57 {
            let e = self.number_end(p);
            match self.number_value(p, e) {
                Some(v) => {
                    self.advance(e - p);
                    proof {
                        let text = s.subrange(p as int, e as int);
                        assert(text[0] == c);
                    }
                    Ok(Some(Token::Number(v)))
                },
                None => Err(Error::bare(ErrorKind::NumberOutOfRange, at)),
            }
        } else {
            Err(Error::bare(ErrorKind::UnrecognizedToken, at))
        }
    }

    fn number_end(&self, from: usize) -> (e: usize)
        requires
            self.wf(),
            from <= self.input@.len(),
        ensures
            e == from + number_len(self.input@, from as int),
            e <= self.input@.len(),
    {
        let d = self.run_len(from, 1);
        proof { lemma_run_bound(self.input@, from as int, 1); }
        if from + d < self.input.len() && self.input[from + d] == 46 {
            let f = self.run_len(from + d + 1, 1);
            from + d + 1 + f
        } else {
            from + d
        }
    }
}

/// Within `p..q`, the run at `p` is the same as in all of `s`.
proof fn lemma_run_prefix(s: Seq<u8>, p: int, q: int, kind: u8)
    requires
        0 <= p <= q <= s.len(),
        p + run(s, p, kind) <= q,
    ensures
        run(s.subrange(p, q), 0, kind) == run(s, p, kind),
    decreases q - p,
{
    let t = s.subrange(p, q);
    if p < q && in_class(kind, s[p]) {
        assert(t[0] == s[p]);
        lemma_run_prefix(s, p + 1, q, kind);
        lemma_run_shift(s, p, q, 1, kind);
    }
}

proof fn lemma_run_shift(s: Seq<u8>, p: int, q: int, k: int, kind: u8)
    requires
        0 <= p,
        0 <= k,
        p + k <= q <= s.len(),
    ensures
        run(s.subrange(p, q), k, kind) == run(s.subrange(p + k, q), 0, kind),
    decreases q - p - k,
{
    let t = s.subrange(p, q);
    let u = s.subrange(p + k, q);
    if p + k < q {
        assert(t[k] == u[0]);
        if in_class(kind, t[k]) {
            lemma_run_shift(s, p, q, k + 1, kind);
            lemma_run_shift(s, p + k, q, 1, kind);
            assert(s.subrange(p + k, q).subrange(1, q - p - k) =~= s.subrange(p + k + 1, q));
        }
    }
}

/// The kinds and text spans of all tokens from `p` on.
pub open spec fn scan_all(s: Seq<u8>, p: int) -> Result<Seq<(TokenKind, int, int)>, ErrorKind>
    decreases s.len() - p,
{
    match scan(s, p) {
        Err(k) => Err(k),
        Ok(None) => Ok(Seq::empty()),
        Ok(Some((kind, a, b, q))) => if q <= p || q > s.len() {
            Ok(Seq::empty())
        } else {
            match scan_all(s, q) {
                Ok(rest) => Ok(seq![(kind, a, b)] + rest),
                Err(k) => Err(k),
            }
        },
    }
}

pub proof fn lemma_line_comment_end(s: Seq<u8>, k: int)
    requires
        0 <= k,
    ensures
        k <= line_comment_end(s, k) <= s.len() || (k > s.len() && line_comment_end(s, k) == s.len()),
    decreases s.len() - k,
{
    if k < s.len() && !(s[k] == NEWLINE || s[k] == RETURN || s[k] == FORM_FEED) {
        lemma_line_comment_end(s, k + 1);
    }
}

proof fn lemma_comment_close(s: Seq<u8>, k: int)
    requires
        0 <= k,
    ensures
        comment_close(s, k) matches Some(j) ==> k <= j && j + 1 < s.len(),
    decreases s.len() - k,
{
    if k + 1 < s.len() && !(s[k] == 42 && s[k + 1] == 47) {
        lemma_comment_close(s, k + 1);
    }
}

proof fn lemma_byte_from(s: Seq<u8>, k: int, q: u8)
    requires
        0 <= k,
    ensures
        byte_from(s, k, q) matches Some(j) ==> k <= j < s.len(),
    decreases s.len() - k,
{
    if k < s.len() && s[k] != q {
        lemma_byte_from(s, k + 1, q);
    }
}

/// Each token ends after where it was looked for, within the input.
proof fn lemma_scan_progress(s: Seq<u8>, p: int)
    requires
        0 <= p,
    ensures
        scan(s, p) matches Ok(Some((kind, a, b, q))) ==> p < q <= s.len(),
    decreases s.len() - p,
{
    if p < s.len() {
        let c = s[p];
        if c == SPACE && !starts_at(s, p, seq![SPACE, SPACE, SPACE, SPACE]) {
            lemma_scan_progress(s, p + 1);
        } else if c == 47 && p + 1 < s.len() && s[p + 1] == 47 {
            lemma_line_comment_end(s, p + 2);
            lemma_scan_progress(s, line_comment_end(s, p + 2));
        } else if c == 47 && p + 1 < s.len() && s[p + 1] == 42 {
            lemma_comment_close(s, p + 2);
        } else if c == 34 || c == 39 {
            lemma_byte_from(s, p + 1, c);
        } else if c == 45 {
            if p + 2 <= s.len() {
                lemma_run_bound(s, p + 2, 0);
            }
            lemma_run_bound(s, p + 1, 1);
            let d = digit_run(s, p + 1) as int;
            if p + 1 + d < s.len() {
                lemma_run_bound(s, p + 1 + d + 1, 1);
            }
        } else if is_alpha(c) || c == 95 {
            lemma_run_bound(s, p, 5);
        } else if is_digit(c) {
            lemma_run_bound(s, p, 1);
            let d = digit_run(s, p) as int;
            if p + d < s.len() {
                lemma_run_bound(s, p + d + 1, 1);
            }
        }
    }
}

/// Reads all the tokens of `source`.
pub fn tokenize(source: &[u8]) -> (r: Result<Vec<Token>, Error>)
    requires
        source@.len() < usize::MAX,
    ensures
        match scan_all(source@, 0) {
            Ok(spans) => r matches Ok(ts) && ts@.len() == spans.len()
                && forall|i: int| 0 <= i < spans.len() ==> #[trigger] token_fits(ts@[i], source@, spans[i].0, spans[i].1, spans[i].2),
            Err(k) => r matches Err(e) && e.kind == k,
        },
{
    let mut lx = Lexer::new(source);
    let mut out: Vec<Token> = Vec::new();
    let ghost s = source@;
    let ghost mut done: Seq<(TokenKind, int, int)> = Seq::empty();
    proof {
        match scan_all(s, 0) {
            Ok(rest) => { assert(done + rest =~= rest); },
            Err(_) => {},
        }
    }
    loop
        invariant
            lx.wf(),
            lx.bytes() == s,
            s == source@,
            out@.len() == done.len(),
            forall|i: int| 0 <= i < done.len() ==> #[trigger] token_fits(out@[i], s, done[i].0, done[i].1, done[i].2),
            scan_all(s, 0) == match scan_all(s, lx.pos()) {
                Ok(rest) => Ok(done + rest),
                Err(k) => Err::<Seq<(TokenKind, int, int)>, ErrorKind>(k),
            },
        decreases s.len() - lx.pos(),
    {
        let ghost p = lx.pos();
        proof { lemma_scan_progress(s, p); }
        match lx.next() {
            Ok(Some(t)) => {
                proof {
                    match scan(s, p) {
                        Ok(Some((kind, a, b, q))) => {
                            match scan_all(s, q) {
                                Ok(rest) => {
                                    assert(done.push((kind, a, b)) + rest =~= done + (seq![(kind, a, b)] + rest));
                                },
                                Err(_) => {},
                            }
                            done = done.push((kind, a, b));
                        },
                        _ => {},
                    }
                }
                out.push(t);
            },
            Ok(None) => {
                assert(done + Seq::<(TokenKind, int, int)>::empty() =~= done);
                return Ok(out);
            },
            Err(e) => {
                return Err(e);
            },
        }
    }
}


/// The first line break at or after `k`, or the end.
pub open spec fn break_from(s: Seq<u8>, k: int) -> int
    decreases s.len() - k,
{
    if k < 0 || k >= s.len() {
        s.len() as int
    } else if is_line_break(s[k]) {
        k
    } else {
        break_from(s, k + 1)
    }
}

/// Where the line that goes on at `p` ends, if nothing but spaces, tabs and a
/// `//` comment stand before its break: after the break, or at the end.
pub open spec fn line_end(s: Seq<u8>, p: int) -> Option<int> {
    let k = p + blank_run(s, p);
    let k2 = if k + 1 < s.len() && s[k] == 47 && s[k + 1] == 47 { break_from(s, k) } else { k };
    if k2 == s.len() {
        Some(k2)
    } else if is_line_break(s[k2]) {
        Some(k2 + 1)
    } else {
        None
    }
}

} // verus!
