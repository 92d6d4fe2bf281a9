//! Decimal numbers as they appear in publications and calibration files,
//! read into fixed-point integers.
use vstd::prelude::*;
use vstd::arithmetic::div_mod::lemma_fundamental_div_mod_converse;

verus! {

/// Number of fraction digits that a fixed-point value keeps.
pub const FRACTION_DIGITS: usize = 4;

/// Fixed-point units in one whole: a value `v` stands for `v / SCORE_SCALE`.
pub const SCORE_SCALE: i64 = 10000;

/// Bound on the magnitude of every score that the normalizer accepts.
pub const SCORE_LIMIT: i64 = 4611686018427387904;

pub open spec fn pow10(n: nat) -> int
    decreases n,
{
    if n == 0 {
        1
    } else {
        10 * pow10((n - 1) as nat)
    }
}

pub open spec fn is_digit(c: char) -> bool {
    '0' <= c && c <= '9'
}

pub open spec fn digit_value(c: char) -> int {
    c as int - '0' as int
}

pub open spec fn all_digits(s: Seq<char>) -> bool {
    forall|i: int| 0 <= i < s.len() ==> is_digit(#[trigger] s[i])
}

/// The number that a string of decimal digits denotes.
pub open spec fn digits_value(s: Seq<char>) -> int
    decreases s.len(),
{
    if s.len() == 0 {
        0
    } else {
        digits_value(s.drop_last()) * 10 + digit_value(s.last())
    }
}

pub open spec fn has_sign(s: Seq<char>) -> bool {
    s.len() > 0 && (s[0] == '-' || s[0] == '+')
}

/// The text without its leading sign, if it has one.
pub open spec fn unsigned_part(s: Seq<char>) -> Seq<char> {
    if has_sign(s) {
        s.skip(1)
    } else {
        s
    }
}

/// Index of the first '.' in `s`, or its length where it has none.
pub open spec fn dot_position(s: Seq<char>) -> int
    decreases s.len(),
{
    if s.len() == 0 {
        0
    } else {
        let p = dot_position(s.drop_last());
        if p < s.len() - 1 {
            p
        } else if s.last() == '.' {
            s.len() - 1
        } else {
            s.len() as int
        }
    }
}

/// The digits before the decimal point.
pub open spec fn integer_part(s: Seq<char>) -> Seq<char> {
    let u = unsigned_part(s);
    u.take(dot_position(u))
}

/// Everything after the first decimal point.
pub open spec fn fraction_part(s: Seq<char>) -> Seq<char> {
    let u = unsigned_part(s);
    let p = dot_position(u);
    if p < u.len() {
        u.skip(p + 1)
    } else {
        Seq::empty()
    }
}

/// A plain decimal number: an optional sign, digits, and at most one
/// decimal point, with at least one digit.
pub open spec fn is_decimal(s: Seq<char>) -> bool {
    &&& all_digits(integer_part(s))
    &&& all_digits(fraction_part(s))
    &&& integer_part(s).len() + fraction_part(s).len() >= 1
}

pub open spec fn is_exp_mark(c: char) -> bool {
    c == 'e' || c == 'E'
}

/// Index of the first exponent mark ('e' or 'E') in `s`, or its length.
pub open spec fn exp_position(s: Seq<char>) -> int
    decreases s.len(),
{
    if s.len() == 0 {
        0
    } else {
        let p = exp_position(s.drop_last());
        if p < s.len() - 1 {
            p
        } else if is_exp_mark(s.last()) {
            s.len() - 1
        } else {
            s.len() as int
        }
    }
}

/// The text after the sign and before the exponent mark.
pub open spec fn mantissa_part(s: Seq<char>) -> Seq<char> {
    let u = unsigned_part(s);
    u.take(exp_position(u))
}

pub open spec fn has_exponent(s: Seq<char>) -> bool {
    exp_position(unsigned_part(s)) < unsigned_part(s).len()
}

/// The text after the exponent mark.
pub open spec fn exponent_text(s: Seq<char>) -> Seq<char> {
    let u = unsigned_part(s);
    if has_exponent(s) {
        u.skip(exp_position(u) + 1)
    } else {
        Seq::empty()
    }
}

/// Whether `t` spells the word whose letters are `lower`, in any letter case.
pub open spec fn spells(t: Seq<char>, lower: Seq<char>, upper: Seq<char>) -> bool {
    &&& t.len() == lower.len()
    &&& t.len() == upper.len()
    &&& forall|i: int| 0 <= i < t.len() ==> (#[trigger] t[i] == lower[i] || t[i] == upper[i])
}

/// `inf`, `infinity` or `nan`, in any letter case.
pub open spec fn is_special(u: Seq<char>) -> bool {
    spells(u, seq!['i', 'n', 'f'], seq!['I', 'N', 'F'])
        || spells(u, seq!['i', 'n', 'f', 'i', 'n', 'i', 't', 'y'], seq!['I', 'N', 'F', 'I', 'N', 'I', 'T', 'Y'])
        || spells(u, seq!['n', 'a', 'n'], seq!['N', 'A', 'N'])
}

/// An optional sign followed by at least one digit.
pub open spec fn valid_exponent(t: Seq<char>) -> bool {
    unsigned_part(t).len() >= 1 && all_digits(unsigned_part(t))
}

/// Rust's floating-point literal syntax: an optional sign, then `inf`,
/// `infinity` or `nan` in any case, or digits with at most one decimal
/// point (at least one digit) and an optional exponent `e`/`E`, sign,
/// digits.
pub open spec fn is_float_literal(s: Seq<char>) -> bool {
    is_special(unsigned_part(s)) || {
        let m = mantissa_part(s);
        &&& !has_sign(m)
        &&& is_decimal(m)
        &&& (!has_exponent(s) || valid_exponent(exponent_text(s)))
    }
}

/// The exponent's value, zero where there is none.
pub open spec fn exponent_value(s: Seq<char>) -> int {
    if has_exponent(s) {
        let t = exponent_text(s);
        let v = digits_value(unsigned_part(t));
        if t.len() > 0 && t[0] == '-' {
            -v
        } else {
            v
        }
    } else {
        0
    }
}

/// `dv * 10^t`, rounded half up to a whole number.
pub open spec fn round_units(dv: int, t: int) -> int {
    if t >= 0 {
        dv * pow10(t as nat)
    } else {
        let q = pow10((-t) as nat);
        (dv + q / 2) / q
    }
}

/// The fixed-point value of a float literal: the number in units of
/// `1 / SCORE_SCALE`, rounded half away from zero. `None` for `inf`,
/// `infinity`, `nan`, and for a magnitude of `SCORE_LIMIT` units or more.
pub open spec fn decimal_fixed(s: Seq<char>) -> Option<int> {
    if is_float_literal(s) && !is_special(unsigned_part(s)) {
        let m = mantissa_part(s);
        let digits = integer_part(m) + fraction_part(m);
        let units = round_units(
            digits_value(digits),
            exponent_value(s) + FRACTION_DIGITS - fraction_part(m).len(),
        );
        if units < SCORE_LIMIT {
            if s.len() > 0 && s[0] == '-' {
                Some(-units)
            } else {
                Some(units)
            }
        } else {
            None
        }
    } else {
        None
    }
}

pub proof fn lemma_pow10_positive(n: nat)
    ensures
        pow10(n) >= 1,
    decreases n,
{
    if n > 0 {
        lemma_pow10_positive((n - 1) as nat);
    }
}

proof fn lemma_digits_bound(s: Seq<char>)
    requires
        all_digits(s),
    ensures
        0 <= digits_value(s) < pow10(s.len()),
    decreases s.len(),
{
    if s.len() > 0 {
        let t = s.drop_last();
        assert(all_digits(t)) by {
            assert forall|i: int| 0 <= i < t.len() implies is_digit(#[trigger] t[i]) by {
                assert(t[i] == s[i]);
            }
        }
        lemma_digits_bound(t);
        assert(is_digit(s[s.len() - 1]));
    }
}

proof fn lemma_take_step(s: Seq<char>, i: int)
    requires
        0 <= i < s.len(),
    ensures
        s.take(i + 1).drop_last() == s.take(i),
        s.take(i + 1).last() == s[i],
{
    assert(s.take(i + 1).drop_last() =~= s.take(i));
}

/// Index of the first '.' in `s`, or its length.
fn find_dot(s: &[char], start: usize) -> (r: usize)
    requires
        start <= s@.len(),
    ensures
        r - start == dot_position(s@.skip(start as int)),
        start <= r <= s@.len(),
{
    let ghost u = s@.skip(start as int);
    let mut i: usize = start;
    assert(u.take(0) =~= Seq::<char>::empty());
    while i < s.len()
        invariant
            start <= i <= s@.len(),
            u == s@.skip(start as int),
            dot_position(u.take(i - start)) == i - start,
        decreases s@.len() - i,
    {
        proof {
            lemma_take_step(u, i - start);
        }
        if s[i] == '.' {
            assert(dot_position(u.take(i - start + 1)) == i - start);
            proof {
                lemma_dot_prefix(u, i - start + 1);
            }
            return i;
        }
        i = i + 1;
    }
    assert(u.take(i - start) =~= u);
    i
}

/// Once the first '.' lies in a prefix, it is the first '.' of the whole.
proof fn lemma_dot_prefix(u: Seq<char>, k: int)
    requires
        0 <= k <= u.len(),
        dot_position(u.take(k)) < k,
    ensures
        dot_position(u) == dot_position(u.take(k)),
    decreases u.len() - k,
{
    if k < u.len() {
        lemma_take_step(u, k);
        lemma_dot_prefix(u, k + 1);
    } else {
        assert(u.take(k) =~= u);
    }
}

/// Whether `s[from..to]` consists of digits.
pub(crate) fn digits_only(s: &[char], from: usize, to: usize) -> (r: bool)
    requires
        from <= to <= s@.len(),
    ensures
        r == all_digits(s@.subrange(from as int, to as int)),
{
    let mut i: usize = from;
    while i < to
        invariant
            from <= i <= to <= s@.len(),
            all_digits(s@.subrange(from as int, i as int)),
        decreases to - i,
    {
        if !('0' <= s[i] && s[i] <= '9') {
            assert(!is_digit(s@.subrange(from as int, to as int)[i - from]));
            return false;
        }
        assert(all_digits(s@.subrange(from as int, i + 1))) by {
            let t = s@.subrange(from as int, i + 1);
            assert forall|j: int| 0 <= j < t.len() implies is_digit(#[trigger] t[j]) by {
                if j < i - from {
                    assert(t[j] == s@.subrange(from as int, i as int)[j]);
                }
            }
        }
        i = i + 1;
    }
    true
}

proof fn lemma_pow10_values()
    ensures
        pow10(4) == 10000,
        pow10(10) == 10000000000,
        pow10(11) == 100000000000,
{
    reveal_with_fuel(pow10, 12);
}

proof fn lemma_pow10_monotone(a: nat, b: nat)
    requires
        a <= b,
    ensures
        pow10(a) <= pow10(b),
    decreases b,
{
    if a < b {
        lemma_pow10_monotone(a, (b - 1) as nat);
        lemma_pow10_positive((b - 1) as nat);
    }
}

/// Whether the text is a plain decimal number.
fn is_plain_decimal(s: &[char]) -> (r: bool)
    ensures
        r == is_decimal(s@),
{
    let start: usize = if s.len() > 0 && (s[0] == '-' || s[0] == '+') {
        1
    } else {
        0
    };
    let ghost u = unsigned_part(s@);
    assert(u =~= s@.skip(start as int));
    let p = find_dot(s, start);
    let int_ok = digits_only(s, start, p);
    assert(s@.subrange(start as int, p as int) =~= integer_part(s@));
    let frac_from: usize = if p < s.len() {
        p + 1
    } else {
        p
    };
    let frac_ok = digits_only(s, frac_from, s.len());
    assert(s@.subrange(frac_from as int, s@.len() as int) =~= fraction_part(s@));
    int_ok && frac_ok && (p - start) + (s.len() - frac_from) >= 1
}

/// Index of the first exponent mark in `s[start..]`, or the length of `s`.
fn find_exp(s: &[char], start: usize) -> (r: usize)
    requires
        start <= s@.len(),
    ensures
        r - start == exp_position(s@.skip(start as int)),
        start <= r <= s@.len(),
{
    let ghost u = s@.skip(start as int);
    let mut i: usize = start;
    assert(u.take(0) =~= Seq::<char>::empty());
    while i < s.len()
        invariant
            start <= i <= s@.len(),
            u == s@.skip(start as int),
            exp_position(u.take(i - start)) == i - start,
        decreases s@.len() - i,
    {
        proof {
            lemma_take_step(u, i - start);
        }
        if s[i] == 'e' || s[i] == 'E' {
            assert(exp_position(u.take(i - start + 1)) == i - start);
            proof {
                lemma_exp_prefix(u, i - start + 1);
            }
            return i;
        }
        i = i + 1;
    }
    assert(u.take(i - start) =~= u);
    i
}

proof fn lemma_exp_prefix(u: Seq<char>, k: int)
    requires
        0 <= k <= u.len(),
        exp_position(u.take(k)) < k,
    ensures
        exp_position(u) == exp_position(u.take(k)),
    decreases u.len() - k,
{
    if k < u.len() {
        lemma_take_step(u, k);
        lemma_exp_prefix(u, k + 1);
    } else {
        assert(u.take(k) =~= u);
    }
}

fn spells_word(s: &[char], from: usize, lower: &[char], upper: &[char]) -> (r: bool)
    requires
        from <= s@.len(),
        lower@.len() == upper@.len(),
    ensures
        r == spells(s@.skip(from as int), lower@, upper@),
{
    let ghost t = s@.skip(from as int);
    let n = s.len();
    if n - from != lower.len() {
        return false;
    }
    let mut i: usize = 0;
    while i < lower.len()
        invariant
            n == s@.len(),
            t == s@.skip(from as int),
            t.len() == lower@.len() == upper@.len(),
            from + lower@.len() == s@.len(),
            i <= lower@.len(),
            forall|j: int| 0 <= j < i ==> (#[trigger] t[j] == lower@[j] || t[j] == upper@[j]),
        decreases lower@.len() - i,
    {
        if s[from + i] != lower[i] && s[from + i] != upper[i] {
            assert(!(t[i as int] == lower@[i as int] || t[i as int] == upper@[i as int]));
            return false;
        }
        i = i + 1;
    }
    true
}

/// Whether `s[from..]` is `inf`, `infinity` or `nan` in any letter case.
fn special_word(s: &[char], from: usize) -> (r: bool)
    requires
        from <= s@.len(),
    ensures
        r == is_special(s@.skip(from as int)),
{
    let a = spells_word(s, from, &['i', 'n', 'f'], &['I', 'N', 'F']);
    let b = spells_word(
        s,
        from,
        &['i', 'n', 'f', 'i', 'n', 'i', 't', 'y'],
        &['I', 'N', 'F', 'I', 'N', 'I', 'T', 'Y'],
    );
    let c = spells_word(s, from, &['n', 'a', 'n'], &['N', 'A', 'N']);
    proof {
        assert(['i', 'n', 'f']@ =~= seq!['i', 'n', 'f']);
        assert(['I', 'N', 'F']@ =~= seq!['I', 'N', 'F']);
        assert(['i', 'n', 'f', 'i', 'n', 'i', 't', 'y']@ =~= seq!['i', 'n', 'f', 'i', 'n', 'i', 't', 'y']);
        assert(['I', 'N', 'F', 'I', 'N', 'I', 'T', 'Y']@ =~= seq!['I', 'N', 'F', 'I', 'N', 'I', 'T', 'Y']);
        assert(['n', 'a', 'n']@ =~= seq!['n', 'a', 'n']);
        assert(['N', 'A', 'N']@ =~= seq!['N', 'A', 'N']);
    }
    a || b || c
}

/// Whether the text is a floating-point literal.
pub fn is_number(s: &[char]) -> (r: bool)
    ensures
        r == is_float_literal(s@),
{
    let start: usize = if s.len() > 0 && (s[0] == '-' || s[0] == '+') {
        1
    } else {
        0
    };
    assert(unsigned_part(s@) =~= s@.skip(start as int));
    if special_word(s, start) {
        return true;
    }
    let ep = find_exp(s, start);
    let m = &s[start..ep];
    assert(m@ =~= mantissa_part(s@));
    if m.len() > 0 && (m[0] == '-' || m[0] == '+') {
        return false;
    }
    if !is_plain_decimal(m) {
        return false;
    }
    if ep == s.len() {
        return true;
    }
    assert(s@.skip(ep + 1) =~= exponent_text(s@));
    exponent_ok(s, ep + 1)
}

/// Whether `s[from..]` is an optional sign followed by at least one digit.
fn exponent_ok(s: &[char], from: usize) -> (r: bool)
    requires
        from <= s@.len(),
    ensures
        r == valid_exponent(s@.skip(from as int)),
{
    let ds: usize = if from < s.len() && (s[from] == '-' || s[from] == '+') {
        from + 1
    } else {
        from
    };
    assert(unsigned_part(s@.skip(from as int)) =~= s@.subrange(ds as int, s@.len() as int));
    ds < s.len() && digits_only(s, ds, s.len())
}

proof fn lemma_digits_concat(a: Seq<char>, b: Seq<char>)
    ensures
        digits_value(a + b) == digits_value(a) * pow10(b.len()) + digits_value(b),
    decreases b.len(),
{
    if b.len() == 0 {
        assert(a + b =~= a);
    } else {
        let b2 = b.drop_last();
        assert((a + b).drop_last() =~= a + b2);
        assert((a + b).last() == b.last());
        lemma_digits_concat(a, b2);
        let x = digits_value(a);
        let y = pow10(b2.len());
        let z = digits_value(b2);
        assert((x * y + z) * 10 == x * (10 * y) + z * 10) by (nonlinear_arith);
    }
}

proof fn lemma_all_digits_sub(s: Seq<char>, i: int, j: int)
    requires
        all_digits(s),
        0 <= i <= j <= s.len(),
    ensures
        all_digits(s.subrange(i, j)),
{
    assert forall|k: int| 0 <= k < j - i implies is_digit(#[trigger] s.subrange(i, j)[k]) by {
        assert(s.subrange(i, j)[k] == s[i + k]);
    }
}

/// The value of the digits `s[from..to]`, or `None` where it exceeds `cap`.
pub(crate) fn digits_capped(s: &[char], from: usize, to: usize, cap: u128) -> (r: Option<u128>)
    requires
        from <= to <= s@.len(),
        all_digits(s@.subrange(from as int, to as int)),
        cap < 0x1_0000_0000_0000_0000_0000_0000,
    ensures
        match r {
            Some(v) => v == digits_value(s@.subrange(from as int, to as int)) && v <= cap,
            None => digits_value(s@.subrange(from as int, to as int)) > cap,
        },
{
    let ghost d = s@.subrange(from as int, to as int);
    let mut v: u128 = 0;
    let mut i: usize = from;
    assert(d.take(0) =~= Seq::<char>::empty());
    while i < to
        invariant
            from <= i <= to <= s@.len(),
            d == s@.subrange(from as int, to as int),
            all_digits(d),
            cap < 0x1_0000_0000_0000_0000_0000_0000,
            v == digits_value(d.take(i - from)),
            v <= cap,
        decreases to - i,
    {
        proof {
            lemma_take_step(d, i - from);
            assert(is_digit(d[i - from]));
        }
        let c = s[i];
        v = v * 10 + ((c as u32) - ('0' as u32)) as u128;
        if v > cap {
            proof {
                lemma_digits_concat(d.take(i - from + 1), d.skip(i - from + 1));
                assert(d.take(i - from + 1) + d.skip(i - from + 1) =~= d);
                lemma_all_digits_sub(d, i - from + 1, d.len() as int);
                assert(d.skip(i - from + 1) =~= d.subrange(i - from + 1, d.len() as int));
                lemma_digits_bound(d.skip(i - from + 1));
                lemma_pow10_positive(d.skip(i - from + 1).len());
                let x = digits_value(d.take(i - from + 1));
                let y = pow10(d.skip(i - from + 1).len());
                assert(x * y >= x) by (nonlinear_arith)
                    requires x >= 0, y >= 1;
            }
            return None;
        }
        i = i + 1;
    }
    assert(d.take(i - from) =~= d);
    Some(v)
}

/// `(dv + q/2) / q` for `q = 10^(n-p)` is the value of the first `p`
/// digits plus one where the next digit is 5 or more.
proof fn lemma_round_split(d: Seq<char>, p: int)
    requires
        all_digits(d),
        0 <= p <= d.len(),
    ensures
        ({
            let q = pow10((d.len() - p) as nat);
            (digits_value(d) + q / 2) / q == digits_value(d.take(p)) + if p < d.len() && d[p] >= '5' {
                1int
            } else {
                0int
            }
        }),
{
    let n = d.len() as int;
    let q = pow10((n - p) as nat);
    let hi = digits_value(d.take(p));
    let rest = d.skip(p);
    assert(d.take(p) + rest =~= d);
    lemma_digits_concat(d.take(p), rest);
    lemma_all_digits_sub(d, p, n);
    assert(rest =~= d.subrange(p, n));
    lemma_digits_bound(rest);
    lemma_all_digits_sub(d, 0, p);
    assert(d.take(p) =~= d.subrange(0, p));
    lemma_digits_bound(d.take(p));
    let lo = digits_value(rest);
    assert(digits_value(d) == hi * q + lo);
    let bump: int = if p < n && d[p] >= '5' {
        1
    } else {
        0
    };
    if p == n {
        assert(q == 1);
        assert(q / 2 == 0);
        assert(rest.len() == 0);
        assert(lo == 0);
    } else {
        let m = (n - p - 1) as nat;
        let tail = rest.skip(1);
        assert(seq![rest[0]] + tail =~= rest);
        lemma_digits_concat(seq![rest[0]], tail);
        assert(seq![rest[0]].drop_last() =~= Seq::<char>::empty());
        assert(digits_value(seq![rest[0]]) == digit_value(rest[0])) by {
            reveal_with_fuel(digits_value, 2);
        }
        lemma_all_digits_sub(rest, 1, rest.len() as int);
        assert(tail =~= rest.subrange(1, rest.len() as int));
        lemma_digits_bound(tail);
        assert(is_digit(rest[0]));
        assert(rest[0] == d[p]);
        let w = pow10(m);
        assert(q == 10 * w);
        lemma_pow10_positive(m);
        let dg = digit_value(rest[0]);
        assert(lo == dg * w + digits_value(tail));
        assert(q / 2 == 5 * w);
        if d[p] >= '5' {
            assert(dg >= 5);
            assert(lo + q / 2 >= q) by (nonlinear_arith)
                requires lo >= dg * w, dg >= 5, w >= 1, q == 10 * w, q / 2 == 5 * w;
        } else {
            assert(dg <= 4);
            assert(lo + q / 2 < q) by (nonlinear_arith)
                requires lo == dg * w + digits_value(tail), digits_value(tail) < w, dg <= 4, w >= 1,
                    q == 10 * w, q / 2 == 5 * w;
        }
    }
    lemma_pow10_positive((n - p) as nat);
    let r = lo + q / 2 - bump * q;
    assert(0 <= r < q);
    assert(digits_value(d) + q / 2 == (hi + bump) * q + r) by (nonlinear_arith)
        requires digits_value(d) == hi * q + lo, r == lo + q / 2 - bump * q;
    lemma_fundamental_div_mod_converse(digits_value(d) + q / 2, q, hi + bump, r);
}

/// Bound beyond which an exponent counts as huge.
const EXP_CAP: u128 = 0x1_0000_0000_0000_0000_0000;

/// The exponent after the mark at `ep`: its value, or `huge` where its
/// magnitude exceeds `EXP_CAP`.
fn exponent_of(s: &[char], ep: usize) -> (r: (i128, bool))
    requires
        ep <= s@.len(),
        ep == start_of_unsigned(s@) + exp_position(unsigned_part(s@)),
        !has_exponent(s@) || valid_exponent(exponent_text(s@)),
    ensures
        !r.1 ==> r.0 == exponent_value(s@) && -(EXP_CAP as int) <= r.0 <= EXP_CAP,
        r.1 ==> has_exponent(s@) && (exponent_value(s@) > EXP_CAP || exponent_value(s@) < -(EXP_CAP as int)),
        r.1 ==> (exponent_value(s@) > 0 <==> s@[ep + 1] != '-'),
{
    if ep >= s.len() {
        return (0, false);
    }
    let es = ep + 1;
    assert(s@.skip(es as int) =~= exponent_text(s@));
    let negative = s[es] == '-';
    let ds: usize = if s[es] == '-' || s[es] == '+' {
        es + 1
    } else {
        es
    };
    assert(unsigned_part(exponent_text(s@)) =~= s@.subrange(ds as int, s@.len() as int));
    match digits_capped(s, ds, s.len(), EXP_CAP) {
        Some(v) => (if negative {
            -(v as i128)
        } else {
            v as i128
        }, false),
        None => (0, true),
    }
}

pub open spec fn start_of_unsigned(s: Seq<char>) -> int {
    if has_sign(s) {
        1
    } else {
        0
    }
}

/// `dv * 10^t` for `t >= 0`, where it is below `SCORE_LIMIT`.
fn scale_up(digits: &Vec<char>, t_exec: i128, huge: bool, Ghost(t): Ghost<int>) -> (r: Option<u128>)
    requires
        all_digits(digits@),
        t >= 0,
        huge ==> t > 0x1_0000_0000_0000_0000,
        !huge ==> t == t_exec,
    ensures
        match r {
            Some(v) => v == round_units(digits_value(digits@), t) && v < SCORE_LIMIT,
            None => round_units(digits_value(digits@), t) >= SCORE_LIMIT,
        },
{
    let ghost dv = digits_value(digits@);
    let limit: u128 = SCORE_LIMIT as u128;
    let n = digits.len();
    assert(digits@.subrange(0, n as int) =~= digits@);
    proof {
        lemma_digits_bound(digits@);
        lemma_pow10_positive(t as nat);
    }
    let dvv = match digits_capped(digits.as_slice(), 0, n, limit - 1) {
        Some(v) => v,
        None => {
            proof {
                assert(dv * pow10(t as nat) >= dv) by (nonlinear_arith)
                    requires dv >= 0, pow10(t as nat) >= 1;
            }
            return None;
        },
    };
    if dvv == 0 {
        assert(round_units(dv, t) == 0 * pow10(t as nat));
        return Some(0);
    }
    let mut v: u128 = dvv;
    let mut k: u128 = 0;
    while v < limit && (huge || (k as i128) < t_exec)
        invariant
            v == dv * pow10(k as nat),
            dv >= 1,
            v >= 1,
            k <= t,
            t >= 0,
            limit == SCORE_LIMIT,
            huge ==> t > 0x1_0000_0000_0000_0000,
            !huge ==> t == t_exec,
        decreases 10 * limit - v,
    {
        proof {
            if huge {
                lemma_pow10_positive(k as nat);
                assert(pow10(k as nat) <= v) by (nonlinear_arith)
                    requires v == dv * pow10(k as nat), dv >= 1, pow10(k as nat) >= 1;
                if k >= 19 {
                    lemma_pow10_monotone(19, k as nat);
                    reveal_with_fuel(pow10, 20);
                }
                assert(k < 19);
            }
            assert(dv * pow10((k + 1) as nat) == 10 * (dv * pow10(k as nat))) by (nonlinear_arith)
                requires pow10((k + 1) as nat) == 10 * pow10(k as nat);
        }
        v = v * 10;
        k = k + 1;
    }
    if v >= limit {
        proof {
            lemma_pow10_monotone(k as nat, t as nat);
            assert(dv * pow10(k as nat) <= dv * pow10(t as nat)) by (nonlinear_arith)
                requires dv >= 1, pow10(k as nat) <= pow10(t as nat);
        }
        return None;
    }
    Some(v)
}

/// `dv / 10^-t` rounded half up, for `t < 0`; `split` is `n + t`, or
/// negative where `-t` exceeds the digit count. Capped at `SCORE_LIMIT`.
fn scale_down(digits: &Vec<char>, split: i128, Ghost(t): Ghost<int>) -> (r: u128)
    requires
        all_digits(digits@),
        t < 0,
        split >= 0 ==> split == digits@.len() + t,
        split < 0 ==> -t > digits@.len(),
    ensures
        r < SCORE_LIMIT ==> r == round_units(digits_value(digits@), t),
        r >= SCORE_LIMIT ==> round_units(digits_value(digits@), t) >= SCORE_LIMIT,
{
    let ghost dv = digits_value(digits@);
    let ghost q = pow10((-t) as nat);
    let n = digits.len();
    let limit: u128 = SCORE_LIMIT as u128;
    if split < 0 {
        proof {
            lemma_digits_bound(digits@);
            lemma_pow10_monotone((n + 1) as nat, (-t) as nat);
            assert(pow10((n + 1) as nat) == 10 * pow10(n as nat));
            assert(0 <= dv + q / 2 < q);
            lemma_fundamental_div_mod_converse(dv + q / 2, q, 0, dv + q / 2);
        }
        return 0;
    }
    let sp = split as usize;
    proof {
        lemma_round_split(digits@, sp as int);
        assert(digits@.subrange(0, sp as int) =~= digits@.take(sp as int));
        lemma_all_digits_sub(digits@, 0, sp as int);
    }
    let hi = match digits_capped(digits.as_slice(), 0, sp, limit - 1) {
        Some(v) => v,
        None => {
            return limit;
        },
    };
    let bump: u128 = if sp < n && digits[sp] >= '5' {
        1
    } else {
        0
    };
    hi + bump
}

/// The digits of a plain unsigned decimal without its point, and the
/// number of fraction digits.
fn digits_without_point(m: &[char]) -> (r: (Vec<char>, usize))
    requires
        !has_sign(m@),
        is_decimal(m@),
    ensures
        r.0@ == integer_part(m@) + fraction_part(m@),
        all_digits(r.0@),
        r.1 == fraction_part(m@).len(),
{
    assert(unsigned_part(m@) =~= m@);
    let p = find_dot(m, 0);
    assert(m@.skip(0) =~= m@);
    // The digits without the point.
    let mut digits: Vec<char> = Vec::new();
    let mut i: usize = 0;
    while i < p
        invariant
            i <= p <= m@.len(),
            digits@ == m@.take(i as int),
        decreases p - i,
    {
        digits.push(m[i]);
        assert(m@.take(i + 1) =~= m@.take(i as int).push(m@[i as int]));
        i = i + 1;
    }
    let frac_from: usize = if p < m.len() {
        p + 1
    } else {
        p
    };
    let ghost head = digits@;
    let mut j: usize = frac_from;
    while j < m.len()
        invariant
            frac_from <= j <= m@.len(),
            digits@ == head + m@.subrange(frac_from as int, j as int),
        decreases m@.len() - j,
    {
        digits.push(m[j]);
        assert(m@.subrange(frac_from as int, j + 1) =~= m@.subrange(frac_from as int, j as int).push(
            m@[j as int],
        ));
        j = j + 1;
    }
    let ghost int_digits = integer_part(m@);
    let ghost frac_digits = fraction_part(m@);
    assert(head =~= int_digits);
    assert(m@.subrange(frac_from as int, m@.len() as int) =~= frac_digits);
    assert(digits@ =~= int_digits + frac_digits);
    assert(all_digits(digits@)) by {
        assert forall|k: int| 0 <= k < digits@.len() implies is_digit(#[trigger] digits@[k]) by {
            if k < int_digits.len() {
                assert(digits@[k] == int_digits[k]);
            } else {
                assert(digits@[k] == frac_digits[k - int_digits.len()]);
            }
        }
    }
    let f = m.len() - frac_from;
    assert(f == frac_digits.len());
    (digits, f)
}

/// The fixed-point value of a float literal (see `decimal_fixed`), or
/// `None` where it has none.
pub fn parse_fixed(s: &[char]) -> (r: Option<i64>)
    ensures
        r matches Some(v) ==> decimal_fixed(s@) == Some(v as int),
        r is None ==> decimal_fixed(s@) is None,
        r matches Some(v) ==> -SCORE_LIMIT < v < SCORE_LIMIT,
{
    if !is_number(s) {
        return None;
    }
    let start: usize = if s.len() > 0 && (s[0] == '-' || s[0] == '+') {
        1
    } else {
        0
    };
    assert(unsigned_part(s@) =~= s@.skip(start as int));
    if special_word(s, start) {
        return None;
    }
    let ep = find_exp(s, start);
    let m = &s[start..ep];
    assert(m@ =~= mantissa_part(s@));
    assert(unsigned_part(m@) =~= m@);
    let (digits, f) = digits_without_point(m);
    let n = digits.len();
    let (e, huge) = exponent_of(s, ep);
    let ghost ev = exponent_value(s@);
    let ghost t = ev + FRACTION_DIGITS - f;
    let ghost units = round_units(digits_value(digits@), t);
    let magnitude: u128;
    if huge {
        if s[ep + 1] != '-' {
            magnitude = match scale_up(&digits, 0, true, Ghost(t)) {
                Some(v) => v,
                None => {
                    return None;
                },
            };
        } else {
            magnitude = scale_down(&digits, -1, Ghost(t));
            if magnitude >= SCORE_LIMIT as u128 {
                return None;
            }
        }
    } else {
        let tt: i128 = e + 4 - (f as i128);
        if tt >= 0 {
            magnitude = match scale_up(&digits, tt, false, Ghost(t)) {
                Some(v) => v,
                None => {
                    return None;
                },
            };
        } else {
            magnitude = scale_down(&digits, (n as i128) + tt, Ghost(t));
            if magnitude >= SCORE_LIMIT as u128 {
                return None;
            }
        }
    }
    assert(magnitude == units);
    let value = magnitude as i64;
    if s[0] == '-' {
        Some(-value)
    } else {
        Some(value)
    }
}

} // verus!
