//! Fixed-point values written as decimal text.
use vstd::prelude::*;

use crate::decimal::{pow10, FRACTION_DIGITS};
use crate::text::string_from_chars;

verus! {

pub open spec fn digit_char(d: int) -> char {
    ('0' as int + d) as char
}

/// The decimal digits of `n`, without leading zeros.
pub open spec fn nat_text(n: nat) -> Seq<char>
    decreases n,
{
    if n < 10 {
        seq![digit_char(n as int)]
    } else {
        nat_text(n / 10) + seq![digit_char((n % 10) as int)]
    }
}

/// The last `width` decimal digits of `n`, with leading zeros.
pub open spec fn padded_text(n: nat, width: nat) -> Seq<char>
    decreases width,
{
    if width == 0 {
        Seq::empty()
    } else {
        padded_text(n / 10, (width - 1) as nat) + seq![digit_char((n % 10) as int)]
    }
}

pub open spec fn abs(v: int) -> nat {
    if v < 0 {
        (-v) as nat
    } else {
        v as nat
    }
}

/// `|v|` in units of `10^-places`, rounded half away from zero.
pub open spec fn rounded_units(v: int, places: nat) -> nat {
    let q = pow10((FRACTION_DIGITS - places) as nat);
    ((abs(v) + q / 2) / q) as nat
}

/// A fixed-point value written with `places` fraction digits, rounded half
/// away from zero; negative values carry a minus sign.
pub open spec fn fixed_text(v: int, places: nat) -> Seq<char> {
    let r = rounded_units(v, places) as int;
    let p = pow10(places);
    let sign = if v < 0 {
        seq!['-']
    } else {
        Seq::empty()
    };
    let whole = nat_text((r / p) as nat);
    if places == 0 {
        sign + whole
    } else {
        sign + whole + seq!['.'] + padded_text((r % p) as nat, places)
    }
}

/// The fewest fraction digits that write `v` exactly.
pub open spec fn exact_places(v: int) -> nat {
    let a = abs(v);
    if a % 10000 == 0 {
        0
    } else if a % 1000 == 0 {
        1
    } else if a % 100 == 0 {
        2
    } else if a % 10 == 0 {
        3
    } else {
        4
    }
}

fn push_digit(out: &mut Vec<char>, d: u64)
    requires
        d < 10,
    ensures
        final(out)@ == old(out)@.push(digit_char(d as int)),
{
    let c = ((d as u8) + 48u8) as char;
    assert(c == digit_char(d as int));
    out.push(c);
}

fn push_nat_text(out: &mut Vec<char>, n: u64)
    ensures
        final(out)@ == old(out)@ + nat_text(n as nat),
    decreases n,
{
    if n >= 10 {
        push_nat_text(out, n / 10);
    }
    push_digit(out, n % 10);
    assert(final(out)@ =~= old(out)@ + nat_text(n as nat));
}

fn push_padded_text(out: &mut Vec<char>, n: u64, width: u64)
    ensures
        final(out)@ == old(out)@ + padded_text(n as nat, width as nat),
    decreases width,
{
    if width == 0 {
        assert(old(out)@ + padded_text(n as nat, 0) =~= old(out)@);
        return;
    }
    push_padded_text(out, n / 10, width - 1);
    push_digit(out, n % 10);
    assert(final(out)@ =~= old(out)@ + padded_text(n as nat, width as nat));
}

fn pow10_exec(n: u64) -> (r: u64)
    requires
        n <= FRACTION_DIGITS,
    ensures
        r == pow10(n as nat),
        1 <= r <= 10000,
{
    let mut r: u64 = 1;
    let mut i: u64 = 0;
    while i < n
        invariant
            i <= n <= FRACTION_DIGITS,
            r == pow10(i as nat),
            1 <= r <= pow10(i as nat),
        decreases n - i,
    {
        assert(r < 10000) by {
            reveal_with_fuel(pow10, 5);
        }
        r = r * 10;
        i = i + 1;
    }
    proof {
        reveal_with_fuel(pow10, 5);
    }
    r
}

/// Writes a fixed-point value with `places` fraction digits.
pub fn format_fixed(v: i64, places: usize) -> (r: String)
    requires
        places <= FRACTION_DIGITS,
    ensures
        r@ == fixed_text(v as int, places as nat),
{
    let a: u64 = if v < 0 {
        if v == i64::MIN {
            9223372036854775808u64
        } else {
            (-v) as u64
        }
    } else {
        v as u64
    };
    assert(a == abs(v as int));
    let q = pow10_exec((FRACTION_DIGITS - places) as u64);
    let units: u64 = (a + q / 2) / q;
    assert(units == rounded_units(v as int, places as nat));
    let p = pow10_exec(places as u64);
    let mut out: Vec<char> = Vec::new();
    if v < 0 {
        out.push('-');
    }
    push_nat_text(&mut out, units / p);
    if places > 0 {
        out.push('.');
        push_padded_text(&mut out, units % p, places as u64);
    }
    assert(out@ =~= fixed_text(v as int, places as nat));
    string_from_chars(out.as_slice())
}

/// Writes a whole number in decimal.
pub fn nat_string(n: u64) -> (r: String)
    ensures
        r@ == nat_text(n as nat),
{
    let mut out: Vec<char> = Vec::new();
    push_nat_text(&mut out, n);
    assert(out@ =~= nat_text(n as nat));
    string_from_chars(out.as_slice())
}

/// The fewest fraction digits that write `v` exactly.
pub fn exact_places_of(v: i64) -> (r: usize)
    ensures
        r == exact_places(v as int),
        r <= FRACTION_DIGITS,
{
    let a: u64 = if v < 0 {
        if v == i64::MIN {
            9223372036854775808u64
        } else {
            (-v) as u64
        }
    } else {
        v as u64
    };
    if a % 10000 == 0 {
        0
    } else if a % 1000 == 0 {
        1
    } else if a % 100 == 0 {
        2
    } else if a % 10 == 0 {
        3
    } else {
        4
    }
}

} // verus!
