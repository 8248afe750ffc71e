//! Numbers as text: decimal and hexadecimal, plain and padded.
use vstd::prelude::*;

verus! {

/// `String::push` appends one character.
pub assume_specification [String::push] (s: &mut String, c: char)
    ensures
        final(s)@ == old(s)@.push(c),
;

/// The character of one digit, lower case beyond nine.
pub open spec fn digit_char(d: int) -> char {
    if d < 10 {
        (48 + d) as u8 as char
    } else {
        (87 + d) as u8 as char
    }
}

/// `n` in base `base`, without leading zeros ("0" for zero).
pub open spec fn digits(n: nat, base: nat) -> Seq<char>
    decreases n,
    when 2 <= base
    via digits_decreases
{
    if n < base {
        seq![digit_char(n as int)]
    } else {
        digits(n / base, base).push(digit_char((n % base) as int))
    }
}

#[via_fn]
proof fn digits_decreases(n: nat, base: nat) {
    if n >= base && 2 <= base {
        assert(n / base < n) by (nonlinear_arith)
            requires
                n >= base,
                base >= 2,
        ;
    }
}

/// `n` in decimal.
pub open spec fn dec(n: nat) -> Seq<char> {
    digits(n, 10)
}

/// `n` in lower-case hexadecimal.
pub open spec fn hex(n: nat) -> Seq<char> {
    digits(n, 16)
}

/// `s` with zeros in front until it is `width` characters long.
pub open spec fn zero_padded(s: Seq<char>, width: nat) -> Seq<char> {
    if s.len() >= width {
        s
    } else {
        Seq::new((width - s.len()) as nat, |i: int| '0') + s
    }
}

fn digit(d: u8) -> (c: char)
    requires
        d < 16,
    ensures
        c == digit_char(d as int),
{
    if d < 10 {
        (48 + d) as char
    } else {
        (87 + d) as char
    }
}

/// The digits of `n`, most significant first.
fn digit_vec(n: u64, base: u64) -> (r: Vec<char>)
    requires
        2 <= base <= 16,
    ensures
        r@ == digits(n as nat, base as nat),
    decreases n,
{
    if n < base {
        let mut r: Vec<char> = Vec::new();
        r.push(digit(n as u8));
        assert(r@ =~= digits(n as nat, base as nat));
        r
    } else {
        assert(n / base < n) by (nonlinear_arith)
            requires
                n >= base,
                base >= 2,
        ;
        let mut r = digit_vec(n / base, base);
        r.push(digit((n % base) as u8));
        r
    }
}

fn push_chars(s: &mut String, cs: &Vec<char>)
    ensures
        final(s)@ == old(s)@ + cs@,
{
    let mut k: usize = 0;
    while k < cs.len()
        invariant
            k <= cs@.len(),
            s@ == old(s)@ + cs@.take(k as int),
        decreases cs@.len() - k,
    {
        s.push(cs[k]);
        k += 1;
        assert(s@ =~= old(s)@ + cs@.take(k as int));
    }
    assert(cs@.take(k as int) =~= cs@);
}

fn push_padded(s: &mut String, cs: &Vec<char>, width: usize)
    ensures
        final(s)@ == old(s)@ + zero_padded(cs@, width as nat),
{
    let mut k: usize = cs.len();
    let ghost n = cs@.len();
    while k < width
        invariant
            n == cs@.len(),
            n <= k,
            n < width ==> k <= width,
            n >= width ==> k == n,
            s@ == old(s)@ + Seq::new((k - n) as nat, |i: int| '0'),
        decreases width - k,
    {
        s.push('0');
        k += 1;
        assert(s@ =~= old(s)@ + Seq::new((k - n) as nat, |i: int| '0'));
    }
    let ghost mid = s@;
    push_chars(s, cs);
    assert(s@ =~= old(s)@ + zero_padded(cs@, width as nat));
}

/// Append `n` in decimal.
pub fn push_dec(s: &mut String, n: u64)
    ensures
        final(s)@ == old(s)@ + dec(n as nat),
{
    let cs = digit_vec(n, 10);
    push_chars(s, &cs);
}

/// Append `n` in decimal, zero-padded to `width`.
pub fn push_dec_padded(s: &mut String, n: u64, width: usize)
    ensures
        final(s)@ == old(s)@ + zero_padded(dec(n as nat), width as nat),
{
    let cs = digit_vec(n, 10);
    push_padded(s, &cs, width);
}

/// Append `n` in hexadecimal.
pub fn push_hex(s: &mut String, n: u64)
    ensures
        final(s)@ == old(s)@ + hex(n as nat),
{
    let cs = digit_vec(n, 16);
    push_chars(s, &cs);
}

/// Append `n` in hexadecimal, zero-padded to `width`.
pub fn push_hex_padded(s: &mut String, n: u64, width: usize)
    ensures
        final(s)@ == old(s)@ + zero_padded(hex(n as nat), width as nat),
{
    let cs = digit_vec(n, 16);
    push_padded(s, &cs, width);
}

/// `n` in decimal with a sign in front where it is negative.
pub open spec fn signed(n: int) -> Seq<char> {
    if n < 0 {
        seq!['-'] + dec((-n) as nat)
    } else {
        dec(n as nat)
    }
}

/// Append `n` in decimal with its sign.
pub fn push_signed(s: &mut String, n: i32)
    ensures
        final(s)@ == old(s)@ + signed(n as int),
{
    if n < 0 {
        s.push('-');
        push_dec(s, (-(n as i64)) as u64);
        assert(s@ =~= old(s)@ + signed(n as int));
    } else {
        push_dec(s, n as u64);
    }
}

} // verus!
