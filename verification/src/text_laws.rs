//! What numbers look like: the text of a number reads back as the number.
use vstd::prelude::*;

use crate::text::{dec, digit_char, digits, hex, signed, zero_padded};

verus! {

/// What a digit is worth.
pub open spec fn worth(c: char) -> int {
    if '0' <= c && c <= '9' {
        c as int - '0' as int
    } else {
        c as int - 'a' as int + 10
    }
}

/// The number that a text tells, the most significant digit first.
pub open spec fn told(s: Seq<char>, base: int) -> int
    decreases s.len(),
{
    if s.len() == 0 {
        0
    } else {
        base * told(s.drop_last(), base) + worth(s.last())
    }
}

/// Whether a character is a digit of the base.
pub open spec fn is_digit(c: char, base: int) -> bool {
    ('0' <= c && c <= '9' || 'a' <= c && c <= 'z') && 0 <= worth(c) < base
}

proof fn lemma_digits(n: nat, base: nat)
    requires
        2 <= base <= 16,
    ensures
        told(digits(n, base), base as int) == n,
        digits(n, base).len() >= 1,
        forall|i: int| 0 <= i < digits(n, base).len() ==> is_digit(#[trigger] digits(n, base)[i], base as int),
        digits(n, base).len() > 1 ==> digits(n, base)[0] != '0',
        n > 0 ==> digits(n, base)[0] != '0',
    decreases n,
{
    let s = digits(n, base);
    if n < base {
        assert(s == seq![digit_char(n as int)]);
        assert(s.drop_last() =~= Seq::empty());
        assert(s.last() == digit_char(n as int));
        assert(told(s.drop_last(), base as int) == 0);
        assert(base as int * 0 == 0);
    } else {
        assert(0 < n / base < n) by (nonlinear_arith)
            requires
                n >= base,
                base >= 2,
        ;
        lemma_digits(n / base, base);
        let p = digits(n / base, base);
        let r = (n % base) as int;
        assert(s == p.push(digit_char(r)));
        assert(s.drop_last() =~= p);
        assert(worth(digit_char(r)) == r);
        vstd::arithmetic::div_mod::lemma_fundamental_div_mod(n as int, base as int);
        assert forall|i: int| 0 <= i < s.len() implies is_digit(#[trigger] s[i], base as int) by {
            if i < p.len() {
                assert(s[i] == p[i]);
            }
        }
        assert(s[0] == p[0]);
    }
}

/// A number is told in decimal digits, without noughts in front.
pub proof fn law_decimal(n: nat)
    ensures
        told(dec(n), 10) == n,
        dec(n).len() >= 1,
        forall|i: int| 0 <= i < dec(n).len() ==> '0' <= #[trigger] dec(n)[i] && dec(n)[i] <= '9',
        dec(n).len() > 1 ==> dec(n)[0] != '0',
{
    lemma_digits(n, 10);
    assert forall|i: int| 0 <= i < dec(n).len() implies '0' <= #[trigger] dec(n)[i] && dec(n)[i] <= '9' by {
        assert(is_digit(digits(n, 10)[i], 10));
    }
}

/// A number is told in hexadecimal digits, the small letters for ten to fifteen.
pub proof fn law_hexadecimal(n: nat)
    ensures
        told(hex(n), 16) == n,
        hex(n).len() >= 1,
        forall|i: int| 0 <= i < hex(n).len() ==> is_digit(#[trigger] hex(n)[i], 16),
        hex(n).len() > 1 ==> hex(n)[0] != '0',
{
    lemma_digits(n, 16);
}

/// Padding puts noughts in front until the width is reached, and takes nothing away.
pub proof fn law_padding(s: Seq<char>, width: nat, i: int)
    requires
        0 <= i < zero_padded(s, width).len(),
    ensures
        s.len() >= width ==> zero_padded(s, width) == s,
        s.len() < width ==> zero_padded(s, width).len() == width,
        i < width - s.len() ==> zero_padded(s, width)[i] == '0',
        s.len() < width && i >= width - s.len() ==> zero_padded(s, width)[i] == s[i - (width - s.len())],
{
}

/// A number below nought has a minus sign in front of its size.
pub proof fn law_signed(n: int)
    ensures
        n >= 0 ==> told(signed(n), 10) == n && signed(n)[0] != '-',
        n < 0 ==> signed(n)[0] == '-' && told(signed(n).skip(1), 10) == -n,
{
    if n >= 0 {
        law_decimal(n as nat);
        assert('0' <= dec(n as nat)[0]);
    } else {
        law_decimal((-n) as nat);
        assert(signed(n).skip(1) =~= dec((-n) as nat));
    }
}

} // verus!
