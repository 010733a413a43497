use vstd::prelude::*;
use vstd::arithmetic::div_mod::lemma_div_denominator;
use crate::natives::clamp_i32;

verus! {

broadcast use vstd::std_specs::vec::group_vec_axioms, vstd::seq::group_seq_axioms;

pub open spec fn is_digit(c: char) -> bool {
    '0' <= c <= '9'
}

pub open spec fn digit_value(c: char) -> nat {
    (c as u32 - '0' as u32) as nat
}

pub open spec fn is_sign(c: char) -> bool {
    c == '+' || c == '-'
}

/// A token without its leading sign, if it has one.
pub open spec fn unsigned_part(t: Seq<char>) -> Seq<char> {
    if t.len() > 0 && is_sign(t[0]) {
        t.drop_first()
    } else {
        t
    }
}

pub open spec fn is_negative(t: Seq<char>) -> bool {
    t.len() > 0 && t[0] == '-'
}

/// `c` is the lower-case ASCII letter `l` in either case.
pub open spec fn letter_is(c: char, l: char) -> bool {
    c == l || (c as u32) + 32 == (l as u32)
}

pub open spec fn is_inf_word(u: Seq<char>) -> bool {
    u.len() == 3 && letter_is(u[0], 'i') && letter_is(u[1], 'n') && letter_is(u[2], 'f')
}

pub open spec fn is_infinity_word(u: Seq<char>) -> bool {
    u.len() == 8 && letter_is(u[0], 'i') && letter_is(u[1], 'n') && letter_is(u[2], 'f')
        && letter_is(u[3], 'i') && letter_is(u[4], 'n') && letter_is(u[5], 'i') && letter_is(
        u[6],
        't',
    ) && letter_is(u[7], 'y')
}

pub open spec fn is_nan_word(u: Seq<char>) -> bool {
    u.len() == 3 && letter_is(u[0], 'n') && letter_is(u[1], 'a') && letter_is(u[2], 'n')
}

pub open spec fn is_exponent_mark(c: char) -> bool {
    c == 'e' || c == 'E'
}

/// The index of the first exponent mark, or the length where there is none.
pub open spec fn exponent_start(u: Seq<char>) -> nat
    decreases u.len(),
{
    if u.len() == 0 {
        0
    } else if is_exponent_mark(u[0]) {
        0
    } else {
        1 + exponent_start(u.drop_first())
    }
}

/// Digits with at most one point among them, and at least one digit.
pub open spec fn valid_mantissa(m: Seq<char>) -> bool {
    &&& forall|i: int| 0 <= i < m.len() ==> is_digit(#[trigger] m[i]) || m[i] == '.'
    &&& forall|i: int, j: int|
        0 <= i < m.len() && 0 <= j < m.len() && #[trigger] m[i] == '.' && #[trigger] m[j] == '.'
            ==> i == j
    &&& exists|i: int| 0 <= i < m.len() && is_digit(#[trigger] m[i])
}

/// An optional sign, then at least one digit.
pub open spec fn valid_exponent(x: Seq<char>) -> bool {
    let d = unsigned_part(x);
    d.len() > 0 && forall|i: int| 0 <= i < d.len() ==> is_digit(#[trigger] d[i])
}

pub open spec fn is_decimal(u: Seq<char>) -> bool {
    let p = exponent_start(u);
    valid_mantissa(u.subrange(0, p as int)) && (p == u.len() || valid_exponent(
        u.subrange(p as int + 1, u.len() as int),
    ))
}

/// The syntax that `f64`'s `from_str` accepts: an optional sign, then
/// `inf`, `infinity` or `nan` in any case, or decimal digits with at most
/// one point and an optional exponent.
pub open spec fn is_float_literal(t: Seq<char>) -> bool {
    let u = unsigned_part(t);
    is_inf_word(u) || is_infinity_word(u) || is_nan_word(u) || is_decimal(u)
}

pub open spec fn has_point(t: Seq<char>) -> bool {
    exists|i: int| 0 <= i < t.len() && t[i] == '.'
}

pub open spec fn digits_value(ds: Seq<char>) -> nat
    decreases ds.len(),
{
    if ds.len() == 0 {
        0
    } else {
        digits_value(ds.drop_last()) * 10 + digit_value(ds.last())
    }
}

pub open spec fn pow10(n: nat) -> nat
    decreases n,
{
    if n == 0 {
        1
    } else {
        10 * pow10((n - 1) as nat)
    }
}

pub open spec fn exponent_value(x: Seq<char>) -> int {
    let d = digits_value(unsigned_part(x));
    if is_negative(x) {
        -d
    } else {
        d as int
    }
}

/// The value of an unsigned decimal without a point, truncated toward zero.
pub open spec fn magnitude(u: Seq<char>) -> nat {
    let p = exponent_start(u);
    let n = digits_value(u.subrange(0, p as int));
    let e = if p < u.len() {
        exponent_value(u.subrange(p as int + 1, u.len() as int))
    } else {
        0
    };
    if e >= 0 {
        n * pow10(e as nat)
    } else {
        n / pow10((-e) as nat)
    }
}

/// The integer that a float literal without a point reads as: its value
/// truncated toward zero and then into the range of `i32` (`nan` reads as 0).
pub open spec fn int_literal_value(t: Seq<char>) -> i32 {
    let u = unsigned_part(t);
    if is_nan_word(u) {
        0
    } else if is_inf_word(u) || is_infinity_word(u) {
        if is_negative(t) {
            i32::MIN
        } else {
            i32::MAX
        }
    } else if is_negative(t) {
        clamp_i32(-magnitude(u))
    } else {
        clamp_i32(magnitude(u) as int)
    }
}

pub fn chars_of(text: &str) -> (r: Vec<char>)
    ensures
        r@ == text@,
{
    let mut cs: Vec<char> = Vec::new();
    for c in it: text.chars()
        invariant
            cs@ == it.seq().subrange(0, it.index() as int),
    {
        cs.push(c);
    }
    cs
}

fn letter(c: char, l: char) -> (r: bool)
    ensures
        r == letter_is(c, l),
{
    c == l || (c as u32) + 32 == (l as u32)
}

fn digit(c: char) -> (r: bool)
    ensures
        r == is_digit(c),
{
    '0' <= c && c <= '9'
}

/// Where the exponent mark of `cs[from..]` stands, relative to `from`.
fn find_exponent(cs: &Vec<char>, from: usize) -> (r: usize)
    requires
        from <= cs.len(),
    ensures
        r == exponent_start(cs@.subrange(from as int, cs.len() as int)),
        from + r <= cs.len(),
{
    let ghost u = cs@.subrange(from as int, cs.len() as int);
    let mut i: usize = from;
    proof {
        assert(u == cs@.subrange(from as int, cs.len() as int));
    }
    while i < cs.len() && !(cs[i] == 'e' || cs[i] == 'E')
        invariant
            from <= i <= cs.len(),
            u == cs@.subrange(from as int, cs.len() as int),
            exponent_start(u) == (i - from) + exponent_start(cs@.subrange(i as int, cs.len() as int)),
        decreases cs.len() - i,
    {
        proof {
            let rest = cs@.subrange(i as int, cs.len() as int);
            assert(rest.drop_first() =~= cs@.subrange(i + 1, cs.len() as int));
        }
        i += 1;
    }
    i - from
}

/// Whether `cs[from..to]` is a valid mantissa.
fn mantissa_ok(cs: &Vec<char>, from: usize, to: usize) -> (r: bool)
    requires
        from <= to <= cs.len(),
    ensures
        r == valid_mantissa(cs@.subrange(from as int, to as int)),
{
    let ghost m = cs@.subrange(from as int, to as int);
    let mut i: usize = from;
    let mut dot_at: usize = 0;
    let mut seen_dot = false;
    let mut seen_digit = false;
    while i < to
        invariant
            from <= i <= to <= cs.len(),
            m == cs@.subrange(from as int, to as int),
            forall|j: int| 0 <= j < i - from ==> is_digit(#[trigger] m[j]) || m[j] == '.',
            seen_dot ==> from <= dot_at < i && m[dot_at - from] == '.',
            forall|j: int| 0 <= j < i - from && #[trigger] m[j] == '.' ==> seen_dot && j == dot_at - from,
            seen_digit <==> exists|j: int| 0 <= j < i - from && is_digit(#[trigger] m[j]),
        decreases to - i,
    {
        let c = cs[i];
        assert(m[i - from] == c);
        if c == '.' {
            if seen_dot {
                assert(m[dot_at - from] == '.' && m[i - from] == '.');
                return false;
            }
            seen_dot = true;
            dot_at = i;
        } else if digit(c) {
            seen_digit = true;
        } else {
            assert(!(is_digit(m[i - from]) || m[i - from] == '.'));
            return false;
        }
        i += 1;
    }
    seen_digit
}

/// Whether `cs[from..]` is a valid exponent.
fn exponent_ok(cs: &Vec<char>, from: usize) -> (r: bool)
    requires
        from <= cs.len(),
    ensures
        r == valid_exponent(cs@.subrange(from as int, cs.len() as int)),
{
    let ghost x = cs@.subrange(from as int, cs.len() as int);
    let mut i: usize = from;
    if i < cs.len() && (cs[i] == '+' || cs[i] == '-') {
        i += 1;
    }
    proof {
        assert(unsigned_part(x) =~= cs@.subrange(i as int, cs.len() as int));
    }
    if i == cs.len() {
        return false;
    }
    let start = i;
    while i < cs.len()
        invariant
            start <= i <= cs.len(),
            x == cs@.subrange(from as int, cs.len() as int),
            unsigned_part(x) == cs@.subrange(start as int, cs.len() as int),
            forall|j: int| start <= j < i ==> is_digit(#[trigger] cs@[j]),
        decreases cs.len() - i,
    {
        if !digit(cs[i]) {
            assert(cs@.subrange(start as int, cs.len() as int)[i - start] == cs@[i as int]);
            return false;
        }
        i += 1;
    }
    assert forall|j: int| 0 <= j < cs.len() - start implies is_digit(
        #[trigger] cs@.subrange(start as int, cs.len() as int)[j],
    ) by {
        assert(cs@.subrange(start as int, cs.len() as int)[j] == cs@[start + j]);
    }
    true
}

/// Where the unsigned part of `cs` starts.
fn sign_length(cs: &Vec<char>) -> (r: usize)
    ensures
        r <= cs.len(),
        unsigned_part(cs@) == cs@.subrange(r as int, cs.len() as int),
        r == 1 <==> (cs.len() > 0 && is_sign(cs@[0])),
        r == 0 || r == 1,
{
    if cs.len() > 0 && (cs[0] == '+' || cs[0] == '-') {
        1
    } else {
        assert(cs@.subrange(0, cs.len() as int) =~= cs@);
        0
    }
}

fn words(cs: &Vec<char>, s: usize) -> (r: (bool, bool, bool))
    requires
        s <= cs.len(),
    ensures
        r.0 == is_inf_word(cs@.subrange(s as int, cs.len() as int)),
        r.1 == is_infinity_word(cs@.subrange(s as int, cs.len() as int)),
        r.2 == is_nan_word(cs@.subrange(s as int, cs.len() as int)),
{
    let n = cs.len() - s;
    let inf = n == 3 && letter(cs[s], 'i') && letter(cs[s + 1], 'n') && letter(cs[s + 2], 'f');
    let infinity = n == 8 && letter(cs[s], 'i') && letter(cs[s + 1], 'n') && letter(cs[s + 2], 'f')
        && letter(cs[s + 3], 'i') && letter(cs[s + 4], 'n') && letter(cs[s + 5], 'i') && letter(
        cs[s + 6],
        't',
    ) && letter(cs[s + 7], 'y');
    let nan = n == 3 && letter(cs[s], 'n') && letter(cs[s + 1], 'a') && letter(cs[s + 2], 'n');
    (inf, infinity, nan)
}

/// Whether `cs` is a float literal.
pub fn float_literal(cs: &Vec<char>) -> (r: bool)
    ensures
        r == is_float_literal(cs@),
{
    let s = sign_length(cs);
    let ghost u = unsigned_part(cs@);
    let (inf, infinity, nan) = words(cs, s);
    if inf || infinity || nan {
        return true;
    }
    let p = find_exponent(cs, s);
    proof {
        assert(u.subrange(0, p as int) =~= cs@.subrange(s as int, (s + p) as int));
    }
    if !mantissa_ok(cs, s, s + p) {
        return false;
    }
    if s + p == cs.len() {
        return true;
    }
    proof {
        assert(u.subrange(p + 1, u.len() as int) =~= cs@.subrange(s + p + 1, cs.len() as int));
    }
    exponent_ok(cs, s + p + 1)
}

/// Bound beyond which a literal's magnitude no longer changes its clamped value.
pub const MAGNITUDE_CAP: u128 = 0x1_0000_0000;

/// Bound on a read exponent, beyond the length of any token.
pub const EXPONENT_CAP: u128 = 0x1_0000_0000_0000_0000;

pub open spec fn all_digits(ds: Seq<char>) -> bool {
    forall|i: int| 0 <= i < ds.len() ==> is_digit(#[trigger] ds[i])
}

pub open spec fn min_int(a: int, b: int) -> int {
    if a < b {
        a
    } else {
        b
    }
}

proof fn lemma_pow10_positive(n: nat)
    ensures
        pow10(n) >= 1,
    decreases n,
{
    if n > 0 {
        lemma_pow10_positive((n - 1) as nat);
    }
}

proof fn lemma_pow10_monotone(a: nat, b: nat)
    requires
        a <= b,
    ensures
        pow10(a) <= pow10(b),
    decreases b,
{
    if a < b {
        lemma_pow10_monotone(a, (b - 1) as nat);
        lemma_pow10_positive((b - 1) as nat);
    }
}

proof fn lemma_digits_bound(ds: Seq<char>)
    requires
        all_digits(ds),
    ensures
        digits_value(ds) < pow10(ds.len()),
    decreases ds.len(),
{
    if ds.len() > 0 {
        let rest = ds.drop_last();
        assert(all_digits(rest)) by {
            assert forall|i: int| 0 <= i < rest.len() implies is_digit(#[trigger] rest[i]) by {
                assert(rest[i] == ds[i]);
            }
        }
        lemma_digits_bound(rest);
        assert(is_digit(ds[ds.len() - 1]));
    }
}

proof fn lemma_digits_prefix(ds: Seq<char>, k: nat)
    requires
        all_digits(ds),
        k <= ds.len(),
    ensures
        digits_value(ds) / pow10(k) == digits_value(ds.subrange(0, ds.len() - k)),
    decreases k,
{
    if k == 0 {
        assert(ds.subrange(0, ds.len() as int) =~= ds);
        assert(pow10(0) == 1);
        assert(digits_value(ds) / 1 == digits_value(ds));
    } else {
        lemma_digits_prefix(ds, (k - 1) as nat);
        let m = ds.subrange(0, ds.len() - (k - 1));
        lemma_pow10_positive((k - 1) as nat);
        lemma_div_denominator(digits_value(ds) as int, pow10((k - 1) as nat) as int, 10);
        assert(pow10(k) == pow10((k - 1) as nat) * 10);
        assert(m.drop_last() =~= ds.subrange(0, ds.len() - k));
        assert(m[m.len() - 1] == ds[ds.len() - k]);
        assert(is_digit(m[m.len() - 1]));
        let q = digits_value(m.drop_last());
        let d = digit_value(m.last());
        assert(d < 10);
        assert(digits_value(m) == q * 10 + d);
        assert((q * 10 + d) / 10 == q) by (nonlinear_arith)
            requires
                0 <= d < 10,
                q >= 0,
        ;
        assert(pow10(k) == pow10((k - 1) as nat) * 10);
        let x = digits_value(ds) as int;
        let a = pow10((k - 1) as nat) as int;
        assert(x / a == digits_value(m) as int);
        assert((x / a) / 10 == x / (a * 10));
        assert(x / (pow10(k) as int) == q);
        assert(digits_value(ds.subrange(0, ds.len() - k)) == q);
    }
}

/// `min(digits_value(cs[from..to]), cap)`.
fn capped_digits(cs: &Vec<char>, from: usize, to: usize, cap: u128) -> (r: u128)
    requires
        from <= to <= cs.len(),
        all_digits(cs@.subrange(from as int, to as int)),
        cap <= EXPONENT_CAP,
    ensures
        r == min_int(digits_value(cs@.subrange(from as int, to as int)) as int, cap as int),
{
    let mut v: u128 = 0;
    let mut i: usize = from;
    proof {
        assert(cs@.subrange(from as int, from as int).len() == 0);
    }
    while i < to
        invariant
            from <= i <= to <= cs.len(),
            all_digits(cs@.subrange(from as int, to as int)),
            cap <= EXPONENT_CAP,
            v == min_int(digits_value(cs@.subrange(from as int, i as int)) as int, cap as int),
        decreases to - i,
    {
        proof {
            assert(cs@.subrange(from as int, i + 1).drop_last() =~= cs@.subrange(from as int, i as int));
            assert(cs@.subrange(from as int, to as int)[i - from] == cs@[i as int]);
        }
        let d = (cs[i] as u32 - '0' as u32) as u128;
        let w = v * 10 + d;
        v = if w > cap {
            cap
        } else {
            w
        };
        i += 1;
    }
    v
}

fn clamp_signed(negative: bool, magnitude: u128) -> (r: i32)
    requires
        magnitude <= MAGNITUDE_CAP,
    ensures
        r == clamp_i32(
            if negative {
                -magnitude
            } else {
                magnitude as int
            },
        ),
{
    let m = magnitude as i128;
    let x = if negative {
        -m
    } else {
        m
    };
    if x > i32::MAX as i128 {
        i32::MAX
    } else if x < i32::MIN as i128 {
        i32::MIN
    } else {
        x as i32
    }
}

pub open spec fn scale(n: nat, e: int) -> nat {
    if e >= 0 {
        n * pow10(e as nat)
    } else {
        n / pow10((-e) as nat)
    }
}

/// The sign and the value, held within `EXPONENT_CAP`, of the exponent
/// that follows the mark at `mark`, if there is one.
fn read_exponent(cs: &Vec<char>, mark: usize) -> (r: (bool, u128))
    requires
        mark <= cs.len(),
        mark < cs.len() ==> valid_exponent(cs@.subrange(mark + 1, cs.len() as int)),
    ensures
        mark < cs.len() ==> ({
            let x = cs@.subrange(mark + 1, cs.len() as int);
            r.0 == is_negative(x) && r.1 == min_int(
                digits_value(unsigned_part(x)) as int,
                EXPONENT_CAP as int,
            )
        }),
        mark == cs.len() ==> r == (false, 0u128),
{
    if mark == cs.len() {
        return (false, 0);
    }
    let ghost x = cs@.subrange(mark + 1, cs.len() as int);
    let mut from = mark + 1;
    let mut negative = false;
    if from < cs.len() && (cs[from] == '+' || cs[from] == '-') {
        negative = cs[from] == '-';
        from += 1;
    }
    proof {
        assert(unsigned_part(x) =~= cs@.subrange(from as int, cs.len() as int));
    }
    (negative, capped_digits(cs, from, cs.len(), EXPONENT_CAP))
}

/// `min(scale(digits_value(cs[from..to]), e), MAGNITUDE_CAP)`, where the
/// exponent `e` is `k` with the given sign and `exp` is `k` held within
/// `EXPONENT_CAP`.
fn scaled(cs: &Vec<char>, from: usize, to: usize, negative: bool, exp: u128, k: Ghost<nat>) -> (r: u128)
    requires
        from < to <= cs.len(),
        all_digits(cs@.subrange(from as int, to as int)),
        exp == min_int(k@ as int, EXPONENT_CAP as int),
    ensures
        r == min_int(
            scale(
                digits_value(cs@.subrange(from as int, to as int)),
                if negative {
                    -k@
                } else {
                    k@ as int
                },
            ) as int,
            MAGNITUDE_CAP as int,
        ),
{
    let ghost mantissa = cs@.subrange(from as int, to as int);
    let ghost n = digits_value(mantissa);
    let ghost e: int = if negative {
        -k@
    } else {
        k@ as int
    };
    proof {
        lemma_digits_bound(mantissa);
    }
    let p = to - from;
    if negative && exp > 0 {
        if exp >= p as u128 {
            proof {
                lemma_pow10_monotone(p as nat, k@);
                assert(n / pow10(k@) == 0) by (nonlinear_arith)
                    requires
                        0 <= n < pow10(p as nat) <= pow10(k@),
                ;
            }
            0
        } else {
            let kept = to - exp as usize;
            proof {
                lemma_digits_prefix(mantissa, k@);
                assert(mantissa.subrange(0, mantissa.len() - k@) =~= cs@.subrange(
                    from as int,
                    kept as int,
                ));
            }
            capped_digits(cs, from, kept, MAGNITUDE_CAP)
        }
    } else {
        assert(e >= 0);
        let v = capped_digits(cs, from, to, MAGNITUDE_CAP);
        if v == 0 {
            proof {
                assert(n * pow10(e as nat) == 0) by (nonlinear_arith)
                    requires
                        n == 0,
                ;
            }
            0
        } else if exp >= 10 {
            proof {
                lemma_pow10_monotone(10, e as nat);
                reveal_with_fuel(pow10, 11);
                assert(n * pow10(e as nat) >= pow10(e as nat)) by (nonlinear_arith)
                    requires
                        n >= 1,
                        pow10(e as nat) >= 0,
                ;
            }
            MAGNITUDE_CAP
        } else {
            let mut w = v;
            let mut j: u128 = 0;
            proof {
                assert(pow10(0) == 1);
            }
            while j < exp
                invariant
                    j <= exp < 10,
                    exp == e,
                    w == min_int((n * pow10(j as nat)) as int, MAGNITUDE_CAP as int),
                decreases exp - j,
            {
                proof {
                    assert(pow10((j + 1) as nat) == 10 * pow10(j as nat));
                    assert(n * pow10((j + 1) as nat) == (n * pow10(j as nat)) * 10) by (nonlinear_arith)
                        requires
                            pow10((j + 1) as nat) == 10 * pow10(j as nat),
                    ;
                }
                let x = w * 10;
                w = if x > MAGNITUDE_CAP {
                    MAGNITUDE_CAP
                } else {
                    x
                };
                j += 1;
            }
            w
        }
    }
}

/// The integer that a float literal without a point reads as.
pub fn literal_int(cs: &Vec<char>) -> (r: i32)
    requires
        is_float_literal(cs@),
        !has_point(cs@),
    ensures
        r == int_literal_value(cs@),
{
    let s = sign_length(cs);
    let negative = s == 1 && cs[0] == '-';
    assert(negative == is_negative(cs@));
    let ghost u = unsigned_part(cs@);
    let (inf, infinity, nan) = words(cs, s);
    if nan {
        return 0;
    }
    if inf || infinity {
        return if negative {
            i32::MIN
        } else {
            i32::MAX
        };
    }
    let p = find_exponent(cs, s);
    let m_end = s + p;
    let ghost mantissa = u.subrange(0, p as int);
    proof {
        assert(mantissa =~= cs@.subrange(s as int, m_end as int));
        assert(all_digits(mantissa)) by {
            assert forall|i: int| 0 <= i < mantissa.len() implies is_digit(#[trigger] mantissa[i]) by {
                assert(mantissa[i] == cs@[s + i]);
                if mantissa[i] == '.' {
                    assert(has_point(cs@));
                }
            }
        }
        if m_end < cs.len() {
            assert(u.subrange(p as int + 1, u.len() as int) =~= cs@.subrange(m_end + 1, cs.len() as int));
        }
    }
    let (exp_negative, exp) = read_exponent(cs, m_end);
    let ghost k: nat = if m_end < cs.len() {
        digits_value(unsigned_part(cs@.subrange(m_end + 1, cs.len() as int)))
    } else {
        0
    };
    let magnitude = scaled(cs, s, m_end, exp_negative, exp, Ghost(k));
    clamp_signed(negative, magnitude)
}

} // verus!
