//! Decimal rendering of integer amounts, verified against a sequence-level
//! specification.

use vstd::prelude::*;

verus! {

/// The decimal digit character for one digit value.
pub open spec fn digit_char(d: int) -> char {
    if d == 0 {
        '0'
    } else if d == 1 {
        '1'
    } else if d == 2 {
        '2'
    } else if d == 3 {
        '3'
    } else if d == 4 {
        '4'
    } else if d == 5 {
        '5'
    } else if d == 6 {
        '6'
    } else if d == 7 {
        '7'
    } else if d == 8 {
        '8'
    } else {
        '9'
    }
}

/// The decimal digit sequence of a non-negative number, most significant
/// digit first, without leading zeros (a lone zero for 0).
pub open spec fn dec_nat(n: int) -> Seq<char>
    decreases n,
{
    if n <= 9 {
        seq![digit_char(if n < 0 { 0 } else { n })]
    } else {
        dec_nat(n / 10).push(digit_char(n % 10))
    }
}

/// The decimal rendering of a signed number: a minus sign before the
/// digits when it is negative.
pub open spec fn dec_int(v: int) -> Seq<char> {
    if v < 0 {
        seq!['-'] + dec_nat(-v)
    } else {
        dec_nat(v)
    }
}

/// Relies on `String::push` of std: appends the given character to the end
/// of the string.
pub assume_specification[ String::push ](s: &mut String, ch: char)
    ensures
        final(s)@ == old(s)@.push(ch),
;

/// The digit character of a digit value, as executable code.
fn digit_of(d: u64) -> (c: char)
    requires
        d <= 9,
    ensures
        c == digit_char(d as int),
{
    match d {
        0 => '0',
        1 => '1',
        2 => '2',
        3 => '3',
        4 => '4',
        5 => '5',
        6 => '6',
        7 => '7',
        8 => '8',
        _ => '9',
    }
}

/// Renders a non-negative number in decimal.
pub fn u64_to_string(n: u64) -> (r: String)
    ensures
        r@ == dec_nat(n as int),
{
    let mut digits: Vec<char> = Vec::new();
    let mut m: u64 = n;
    while m > 9
        invariant
            dec_nat(n as int) == dec_nat(m as int) + digits@.reverse(),
        decreases m,
    {
        proof {
            assert(dec_nat(m as int) == dec_nat(m as int / 10).push(digit_char(m as int % 10)));
            assert(digits@.push(digit_char(m as int % 10)).reverse() =~= seq![
                digit_char(m as int % 10),
            ] + digits@.reverse());
            assert(dec_nat(m as int / 10) + (seq![digit_char(m as int % 10)] + digits@.reverse())
                =~= dec_nat(m as int) + digits@.reverse());
        }
        digits.push(digit_of(m % 10));
        m = m / 10;
    }
    let mut r = String::new();
    r.push(digit_of(m));
    proof {
        assert(r@ =~= dec_nat(m as int));
    }
    let k: usize = digits.len();
    let mut i: usize = 0;
    while i < k
        invariant
            k == digits@.len(),
            i <= k,
            r@ == dec_nat(m as int) + digits@.reverse().take(i as int),
            dec_nat(n as int) == dec_nat(m as int) + digits@.reverse(),
        decreases k - i,
    {
        proof {
            assert(digits@.reverse()[i as int] == digits@[k - 1 - i]);
            assert(digits@.reverse().take(i + 1) =~= digits@.reverse().take(i as int).push(
                digits@[k - 1 - i],
            ));
        }
        r.push(digits[k - 1 - i]);
        i = i + 1;
    }
    proof {
        assert(digits@.reverse().take(k as int) =~= digits@.reverse());
        assert(r@ =~= dec_nat(n as int));
    }
    r
}

/// Renders a signed number in decimal, with a leading minus sign when it
/// is negative.
pub fn i64_to_string(v: i64) -> (r: String)
    requires
        v > i64::MIN,
    ensures
        r@ == dec_int(v as int),
{
    if v < 0 {
        let mut r = String::new();
        r.push('-');
        let digits = u64_to_string((-v) as u64);
        let out = r.concat(digits.as_str());
        proof {
            assert(out@ =~= dec_int(v as int));
        }
        out
    } else {
        u64_to_string(v as u64)
    }
}

} // verus!
