use vstd::prelude::*;

verus! {

/// Numbers are fixed-point: an `i64` counting millionths.
pub const UNIT: i64 = 1000000;

pub open spec fn in_range(v: int) -> bool {
    -0x7fff_ffff_ffff_ffff <= v <= 0x7fff_ffff_ffff_ffff
}

pub open spec fn abs(v: int) -> int {
    if v < 0 { -v } else { v }
}

/// Division that rounds toward zero.
pub open spec fn tdiv(a: int, b: int) -> int {
    if (a < 0) == (b < 0) || a == 0 {
        abs(a) / abs(b)
    } else {
        -(abs(a) / abs(b))
    }
}

pub open spec fn add_spec(a: int, b: int) -> Option<int> {
    if in_range(a + b) { Some(a + b) } else { None }
}

pub open spec fn sub_spec(a: int, b: int) -> Option<int> {
    if in_range(a - b) { Some(a - b) } else { None }
}

pub open spec fn mul_spec(a: int, b: int) -> Option<int> {
    let r = tdiv(a * b, UNIT as int);
    if in_range(r) { Some(r) } else { None }
}

/// `None` also when `b` is zero.
pub open spec fn div_spec(a: int, b: int) -> Option<int> {
    if b == 0 {
        None
    } else {
        let r = tdiv(a * UNIT, b);
        if in_range(r) { Some(r) } else { None }
    }
}

/// An optional integer known to fit, as an `i64`.
pub open spec fn narrow(o: Option<int>) -> Option<i64> {
    match o {
        Some(v) => Some(v as i64),
        None => None,
    }
}

fn magnitude(a: i64) -> (r: u128)
    ensures
        r == abs(a as int),
{
    if a < 0 { (-(a as i128)) as u128 } else { a as u128 }
}

fn signed(m: u128, negative: bool) -> (r: Option<i64>)
    ensures
        r == (if in_range(if negative { -m } else { m as int }) {
            Some((if negative { -m } else { m as int }) as i64)
        } else {
            None::<i64>
        }),
{
    if m > 0x7fff_ffff_ffff_ffff {
        None
    } else if negative {
        Some(-(m as i64))
    } else {
        Some(m as i64)
    }
}

pub fn add(a: i64, b: i64) -> (r: Option<i64>)
    ensures
        r == narrow(add_spec(a as int, b as int)),
        r matches Some(v) ==> v == a + b,
{
    let s = a as i128 + b as i128;
    if -0x7fff_ffff_ffff_ffff <= s && s <= 0x7fff_ffff_ffff_ffff {
        Some(s as i64)
    } else {
        None
    }
}

pub fn sub(a: i64, b: i64) -> (r: Option<i64>)
    ensures
        r == narrow(sub_spec(a as int, b as int)),
        r matches Some(v) ==> v == a - b,
{
    let s = a as i128 - b as i128;
    if -0x7fff_ffff_ffff_ffff <= s && s <= 0x7fff_ffff_ffff_ffff {
        Some(s as i64)
    } else {
        None
    }
}

pub fn mul(a: i64, b: i64) -> (r: Option<i64>)
    ensures
        r == narrow(mul_spec(a as int, b as int)),
        r matches Some(v) ==> v == tdiv(a * b, UNIT as int),
{
    let ma = magnitude(a);
    let mb = magnitude(b);
    proof {
        assert(ma * mb <= 0x8000_0000_0000_0000u128 * 0x8000_0000_0000_0000u128) by (nonlinear_arith)
            requires ma <= 0x8000_0000_0000_0000u128, mb <= 0x8000_0000_0000_0000u128;
        assert(abs(a * b) == ma * mb) by (nonlinear_arith)
            requires ma == abs(a as int), mb == abs(b as int);
        assert((a * b < 0) == ((a < 0) != (b < 0) && a != 0 && b != 0)) by (nonlinear_arith);
    }
    let m = ma * mb / 1000000;
    signed(m, (a < 0) != (b < 0) && a != 0 && b != 0)
}

pub fn div(a: i64, b: i64) -> (r: Option<i64>)
    ensures
        r == narrow(div_spec(a as int, b as int)),
        r matches Some(v) ==> b != 0 && v == tdiv(a * UNIT, b as int),
{
    if b == 0 {
        return None;
    }
    let ma = magnitude(a);
    let mb = magnitude(b);
    proof {
        assert(ma * 1000000 <= 0x8000_0000_0000_0000u128 * 1000000) by (nonlinear_arith)
            requires ma <= 0x8000_0000_0000_0000u128;
        assert(abs(a * UNIT) == ma * 1000000) by (nonlinear_arith)
            requires ma == abs(a as int);
        assert((a * UNIT < 0) == (a < 0)) by (nonlinear_arith);
    }
    let m = ma * 1000000 / mb;
    signed(m, (a < 0) != (b < 0) && a != 0)
}

/// The decimal digits of `n`.
pub open spec fn dec(n: nat) -> Seq<u8>
    decreases n,
{
    if n < 10 {
        seq![(48 + n) as u8]
    } else {
        dec(n / 10).push((48 + n % 10) as u8)
    }
}

pub open spec fn pow10(k: nat) -> nat
    decreases k,
{
    if k == 0 { 1 } else { 10 * pow10((k - 1) as nat) }
}

/// Six digits of a fraction in millionths, zero-padded on the left.
pub open spec fn six_digits(f: nat) -> Seq<u8> {
    Seq::new(6, |i: int| (48 + (f / pow10((5 - i) as nat)) % 10) as u8)
}

pub open spec fn strip_zeros(s: Seq<u8>) -> Seq<u8>
    decreases s.len(),
{
    if s.len() > 0 && s.last() == 48 { strip_zeros(s.drop_last()) } else { s }
}

/// The text of a magnitude: its whole part, then its fraction if it has one.
pub open spec fn unsigned_text(m: nat) -> Seq<u8> {
    let whole = dec(m / (UNIT as nat));
    let frac = (m % (UNIT as nat)) as nat;
    if frac == 0 { whole } else { whole.push(46) + strip_zeros(six_digits(frac)) }
}

/// How a number is written out: `-` for a negative one, no trailing zeros
/// in the fraction and no point when there is no fraction.
pub open spec fn num_text(v: int) -> Seq<u8> {
    if v < 0 { seq![45u8] + unsigned_text(abs(v) as nat) } else { unsigned_text(v as nat) }
}

fn push_dec(n: u64, out: &mut Vec<u8>)
    ensures
        final(out)@ == old(out)@ + dec(n as nat),
    decreases n,
{
    if n >= 10 {
        push_dec(n / 10, out);
        out.push((48 + n % 10) as u8);
    } else {
        out.push((48 + n) as u8);
    }
}

/// Writes the number `v` (in millionths) out as text.
pub fn push_num(v: i64, out: &mut Vec<u8>)
    ensures
        final(out)@ == old(out)@ + num_text(v as int),
{
    let ghost start = out@;
    let m: u64 = if v < 0 {
        out.push(45);
        (-(v as i128)) as u64
    } else {
        v as u64
    };
    let ghost mid = out@;
    push_dec(m / 1000000, out);
    let frac = m % 1000000;
    if frac != 0 {
        out.push(46);
        let mut digits: Vec<u8> = Vec::new();
        let mut div: u64 = 100000;
        let mut i: usize = 0;
        proof { reveal_with_fuel(pow10, 6); }
        while i < 6
            invariant
                i <= 6,
                frac < 1000000,
                div == pow10((5 - i) as nat) || i == 6,
                digits@ == six_digits(frac as nat).subrange(0, i as int),
            decreases 6 - i,
        {
            proof { reveal_with_fuel(pow10, 6); }
            digits.push((48 + (frac / div) % 10) as u8);
            assert(digits@ == six_digits(frac as nat).subrange(0, i + 1));
            if i < 5 {
                div = div / 10;
            }
            i += 1;
        }
        assert(digits@ == six_digits(frac as nat));
        let mut len: usize = 6;
        while len > 0 && digits[len - 1] == 48
            invariant
                len <= digits@.len() == 6,
                strip_zeros(digits@.subrange(0, len as int)) == strip_zeros(six_digits(frac as nat)),
            decreases len,
        {
            assert(digits@.subrange(0, len - 1) == digits@.subrange(0, len as int).drop_last());
            len -= 1;
        }
        let mut j: usize = 0;
        let ghost before = out@;
        while j < len
            invariant
                j <= len <= digits@.len(),
                out@ == before + digits@.subrange(0, j as int),
            decreases len - j,
        {
            out.push(digits[j]);
            j += 1;
            assert(out@ == before + digits@.subrange(0, j as int));
        }
        assert(strip_zeros(digits@.subrange(0, len as int)) == digits@.subrange(0, len as int));
    }
    proof {
        assert(m == abs(v as int));
        if v < 0 {
            assert(out@ == start + num_text(v as int));
        } else {
            assert(out@ == start + num_text(v as int));
        }
    }
}

} // verus!
