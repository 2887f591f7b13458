//! Rounding to a binary floating-point grid, over the real numbers.
use vstd::arithmetic::power2::{lemma2_to64, lemma_pow2_unfold, pow2};
use vstd::prelude::*;

verus! {

/// Two to the power `e`, for an exponent of either sign.
#[verifier::opaque]
pub open spec fn two_to(e: int) -> real
    decreases (if e >= 0 { e } else { -e }),
{
    if e == 0 {
        1real
    } else if e > 0 {
        2real * two_to(e - 1)
    } else {
        two_to(e + 1) / 2real
    }
}

/// The binary number `m` times two to the power `e`.
#[verifier::opaque]
pub open spec fn dyadic(m: int, e: int) -> real {
    m as real * two_to(e)
}

/// The integer nearest to `x`; halfway cases go to the even neighbour.
pub open spec fn nearest_even(x: real) -> int {
    let below = x.floor();
    let rest = x - below as real;
    if 2real * rest < 1real || (2real * rest == 1real && below % 2 == 0) {
        below
    } else {
        below + 1
    }
}

/// `x` without its fractional part.
pub open spec fn truncated(x: real) -> int {
    if x >= 0real {
        x.floor()
    } else {
        -((-x).floor())
    }
}

/// `r` with a sign.
pub open spec fn signed(negative: bool, r: int) -> int {
    if negative {
        -r
    } else {
        r
    }
}

/// The exponent of the leading binary digit of a positive number.
pub open spec fn leading(x: real) -> int {
    choose|e: int| #[trigger] two_to(e) <= x && x < two_to(e + 1)
}

/// `x` rounded to `digits` significant binary digits, to nearest with ties to
/// even: the result of an IEEE 754 operation whose exact value is `x` and whose
/// exponent stays in the normal range of the format.
#[verifier::opaque]
pub open spec fn rounded(x: real, digits: int) -> real
    decreases (if x < 0real { 1int } else { 0 }),
{
    if x == 0real {
        0real
    } else if x < 0real {
        -rounded(-x, digits)
    } else {
        let unit = two_to(leading(x) - digits + 1);
        nearest_even(x / unit) as real * unit
    }
}

#[verifier::spinoff_prover]
pub proof fn lemma_two_to_step(e: int)
    ensures
        two_to(e + 1) == 2real * two_to(e),
        two_to(e) > 0real,
    decreases (if e >= 0 { e } else { -e }),
{
    reveal(two_to);
    if e > 0 {
        lemma_two_to_step(e - 1);
    } else if e < 0 {
        lemma_two_to_step(e + 1);
    }
}

#[verifier::spinoff_prover]
pub proof fn lemma_two_to_add(a: int, b: int)
    ensures
        two_to(a + b) == two_to(a) * two_to(b),
    decreases (if b >= 0 { b } else { -b }),
{
    reveal(two_to);
    if b > 0 {
        lemma_two_to_add(a, b - 1);
        lemma_two_to_step(a + b - 1);
        lemma_two_to_step(b - 1);
        let (x, y) = (two_to(a), two_to(b - 1));
        assert(2real * (x * y) == x * (2real * y)) by (nonlinear_arith);
    } else if b < 0 {
        lemma_two_to_add(a, b + 1);
        lemma_two_to_step(a + b);
        lemma_two_to_step(b);
        let (x, y) = (two_to(a), two_to(b));
        assert(x * (2real * y) == 2real * (x * y)) by (nonlinear_arith);
    }
}

#[verifier::spinoff_prover]
pub proof fn lemma_two_to_zero()
    ensures
        two_to(0) == 1real,
{
    reveal(two_to);
}

#[verifier::spinoff_prover]
pub proof fn lemma_two_to_inverse(k: int)
    ensures
        two_to(k) * two_to(-k) == 1real,
{
    lemma_two_to_zero();
    lemma_two_to_add(k, -k);
}

#[verifier::spinoff_prover]
pub proof fn lemma_two_to_reciprocal(k: nat, p: int)
    requires
        pow2(k) == p,
    ensures
        two_to(k as int) == p as real,
        p as real * two_to(-k) == 1real,
        two_to(-k) > 0real,
{
    lemma_two_to_pow2(k);
    lemma_two_to_inverse(k as int);
    lemma_two_to_step(-k);
}

#[verifier::spinoff_prover]
pub proof fn lemma_two_to_increases(a: int, b: int)
    requires
        a <= b,
    ensures
        two_to(a) <= two_to(b),
        a < b ==> 2real * two_to(a) <= two_to(b),
    decreases b - a,
{
    lemma_two_to_step(a);
    if a < b {
        lemma_two_to_increases(a + 1, b);
    }
}

#[verifier::spinoff_prover]
pub proof fn lemma_two_to_pow2(n: nat)
    ensures
        two_to(n as int) == pow2(n) as real,
    decreases n,
{
    reveal(two_to);
    if n == 0 {
        assert(pow2(0) == 1) by {
            lemma2_to64();
        }
    } else {
        lemma_two_to_pow2((n - 1) as nat);
        lemma_pow2_unfold(n);
    }
}

pub proof fn lemma_product_as_real(a: int, b: int)
    by (nonlinear_arith)
    ensures
        (a * b) as real == (a as real) * (b as real),
{
}

/// The leading exponent is the only one that brackets `x`.
#[verifier::spinoff_prover]
pub proof fn lemma_leading(x: real, e: int)
    requires
        two_to(e) <= x < two_to(e + 1),
    ensures
        leading(x) == e,
{
    let l = leading(x);
    assert(two_to(l) <= x && x < two_to(l + 1));
    if l < e {
        lemma_two_to_increases(l + 1, e);
    } else if e < l {
        lemma_two_to_increases(e + 1, l);
    }
}

/// Every positive number has a leading exponent.
#[verifier::spinoff_prover]
pub proof fn lemma_has_leading(x: real)
    requires
        x > 0real,
    ensures
        two_to(leading(x)) <= x < two_to(leading(x) + 1),
{
    if x >= 1real {
        let l = lemma_integer_bracket(x.floor());
        lemma_leading(x, l);
    } else {
        let y = 1real / x;
        assert(y >= 1real && x * y == 1real) by (nonlinear_arith)
            requires
                0real < x < 1real,
                y == 1real / x,
        ;
        let k = lemma_integer_bracket(y.floor());
        lemma_two_to_inverse(k);
        lemma_two_to_step(-(k + 1));
        lemma_two_to_step(k);
        let (p, q) = (two_to(k), two_to(-k));
        assert(x <= q && 2real * x > q) by (nonlinear_arith)
            requires
                p * q == 1real,
                x * y == 1real,
                x > 0real,
                q > 0real,
                p > 0real,
                p <= y < 2real * p,
        ;
        if x == q {
            lemma_two_to_step(-k);
            lemma_leading(x, -k);
        } else {
            lemma_leading(x, -(k + 1));
        }
    }
}

/// Brackets a positive integer, and every real below its successor, between
/// powers of two.
#[verifier::spinoff_prover]
proof fn lemma_integer_bracket(m: int) -> (l: int)
    requires
        m >= 1,
    ensures
        l >= 0,
        two_to(l) <= m as real,
        (m + 1) as real <= two_to(l + 1),
    decreases m,
{
    reveal(two_to);
    if m == 1 {
        lemma_two_to_step(0);
        0
    } else {
        let l = lemma_integer_bracket(m / 2);
        lemma_two_to_step(l);
        lemma_two_to_step(l + 1);
        l + 1
    }
}

/// Rounding commutes with a change of exponent.
#[verifier::spinoff_prover]
pub proof fn lemma_rounded_scales(x: real, k: int, digits: int)
    ensures
        rounded(x * two_to(k), digits) == rounded(x, digits) * two_to(k),
    decreases (if x < 0real { 1int } else { 0 }),
{
    reveal(rounded);
    let t = two_to(k);
    lemma_two_to_step(k);
    if x == 0real {
    } else if x < 0real {
        assert(x * t < 0real && -(x * t) == (-x) * t) by (nonlinear_arith)
            requires
                x < 0real,
                t > 0real,
        ;
        lemma_rounded_scales(-x, k, digits);
        let r = rounded(-x, digits);
        assert((-r) * t == -(r * t)) by (nonlinear_arith);
    } else {
        let l = leading(x);
        lemma_has_leading(x);
        lemma_two_to_add(l, k);
        lemma_two_to_add(l + 1, k);
        assert(l + 1 + k == l + k + 1);
        let (a, b) = (two_to(l), two_to(l + 1));
        assert(a * t <= x * t && x * t < b * t && x * t > 0real) by (nonlinear_arith)
            requires
                a <= x < b,
                0real < x,
                t > 0real,
        ;
        lemma_leading(x * t, l + k);
        let u = two_to(l - digits + 1);
        lemma_two_to_step(l - digits + 1);
        lemma_two_to_add(l - digits + 1, k);
        assert(l + k - digits + 1 == l - digits + 1 + k);
        assert((x * t) / (u * t) == x / u) by (nonlinear_arith)
            requires
                u > 0real,
                t > 0real,
        ;
        let n = nearest_even(x / u) as real;
        assert(n * (u * t) == (n * u) * t) by (nonlinear_arith);
    }
}

/// A number with few enough digits is its own rounding.
#[verifier::spinoff_prover]
pub proof fn lemma_rounded_exact(m: int, e: int, digits: int)
    requires
        digits >= 1,
        -pow2(digits as nat) <= m <= pow2(digits as nat),
    ensures
        rounded(dyadic(m, e), digits) == dyadic(m, e),
{
    reveal(dyadic);
    lemma_two_to_pow2(digits as nat);
    reveal(rounded);
    lemma_rounded_scales(m as real, e, digits);
    if m < 0 {
        lemma_rounded_natural(-m, digits);
        assert((-m) as real == -(m as real));
    } else {
        lemma_rounded_natural(m, digits);
    }
}

#[verifier::spinoff_prover]
proof fn lemma_rounded_natural(m: int, digits: int)
    requires
        digits >= 1,
        0 <= m,
        m as real <= two_to(digits),
    ensures
        rounded(m as real, digits) == m as real,
{
    reveal(rounded);
    if m > 0 {
        let x = m as real;
        lemma_has_leading(x);
        let l = leading(x);
        let k = digits - 1 - l;
        if l > digits {
            lemma_two_to_increases(digits + 1, l);
            lemma_two_to_step(digits);
        }
        let u = two_to(-k);
        lemma_two_to_step(-k);
        lemma_two_to_inverse(k);
        let v = two_to(k);
        assert(x / u == x * v) by (nonlinear_arith)
            requires
                u > 0real,
                v * u == 1real,
        ;
        if k >= 0 {
            lemma_two_to_pow2(k as nat);
            let p = pow2(k as nat) as int;
            let n = m * p;
            lemma_product_as_real(m, p);
            assert(nearest_even(n as real) == n);
        } else {
            // Only the power of two itself has one digit more.
            lemma_two_to_increases(digits, l);
            assert(l == digits);
            lemma_two_to_pow2((digits - 1) as nat);
            lemma_two_to_add(digits, -1);
            assert(x * v == pow2((digits - 1) as nat) as real);
            assert(nearest_even(x * v) == pow2((digits - 1) as nat));
        }
        assert((x * v) * u == x) by (nonlinear_arith)
            requires
                v * u == 1real,
        ;
    }
}

/// Rounding treats both signs alike.
#[verifier::spinoff_prover]
pub proof fn lemma_rounded_negated(x: real, digits: int)
    ensures
        rounded(-x, digits) == -rounded(x, digits),
{
    reveal(rounded);
}

/// Rounding keeps the order of numbers.
#[verifier::spinoff_prover]
pub proof fn lemma_rounded_monotone(x: real, y: real, digits: int)
    requires
        digits >= 1,
        x <= y,
    ensures
        rounded(x, digits) <= rounded(y, digits),
{
    reveal(rounded);
    if x > 0real {
        lemma_rounded_monotone_positive(x, y, digits);
    } else if y < 0real {
        lemma_rounded_monotone_positive(-y, -x, digits);
    } else {
        if x < 0real {
            lemma_rounded_bracket(-x, digits);
            lemma_two_to_step(leading(-x));
        }
        if y > 0real {
            lemma_rounded_bracket(y, digits);
            lemma_two_to_step(leading(y));
        }
    }
}

/// A positive number rounds to within its binade.
#[verifier::spinoff_prover]
pub proof fn lemma_rounded_bracket(x: real, digits: int)
    requires
        digits >= 1,
        x > 0real,
    ensures
        two_to(leading(x)) <= rounded(x, digits) <= two_to(leading(x) + 1),
{
    reveal(rounded);
    let l = leading(x);
    lemma_has_leading(x);
    let u = two_to(l - digits + 1);
    lemma_two_to_step(l - digits + 1);
    let p = pow2((digits - 1) as nat) as int;
    lemma_two_to_pow2((digits - 1) as nat);
    lemma_two_to_add(digits - 1, l - digits + 1);
    lemma_two_to_step(l);
    let v = x / u;
    let pr = p as real;
    assert(pr <= v && v < 2real * pr) by (nonlinear_arith)
        requires
            v == x / u,
            u > 0real,
            pr * u <= x,
            x < 2real * (pr * u),
    ;
    let n = nearest_even(v);
    assert(p <= n <= 2 * p);
    let nr = n as real;
    assert(pr * u <= nr * u && nr * u <= 2real * (pr * u)) by (nonlinear_arith)
        requires
            u > 0real,
            pr <= nr <= 2real * pr,
    ;
}

#[verifier::spinoff_prover]
proof fn lemma_rounded_monotone_positive(x: real, y: real, digits: int)
    requires
        digits >= 1,
        0real < x <= y,
    ensures
        rounded(x, digits) <= rounded(y, digits),
{
    reveal(rounded);
    let (l, m) = (leading(x), leading(y));
    lemma_has_leading(x);
    lemma_has_leading(y);
    lemma_rounded_bracket(x, digits);
    lemma_rounded_bracket(y, digits);
    if l < m {
        lemma_two_to_increases(l + 1, m);
    } else if m < l {
        lemma_two_to_increases(m + 1, l);
    } else {
        let u = two_to(l - digits + 1);
        lemma_two_to_step(l - digits + 1);
        let (a, b) = (x / u, y / u);
        assert(a <= b) by (nonlinear_arith)
            requires
                a == x / u,
                b == y / u,
                x <= y,
                u > 0real,
        ;
        assert(nearest_even(a) <= nearest_even(b));
        let (i, j) = (nearest_even(a) as real, nearest_even(b) as real);
        assert(i * u <= j * u) by (nonlinear_arith)
            requires
                i <= j,
                u > 0real,
        ;
    }
}

/// Rounding moves a positive number by no more than its share of half a unit in
/// the last place.
#[verifier::spinoff_prover]
pub proof fn lemma_rounded_error(x: real, digits: int)
    requires
        digits >= 1,
        x > 0real,
    ensures
        x - x * two_to(-digits) <= rounded(x, digits) <= x + x * two_to(-digits),
{
    reveal(rounded);
    let l = leading(x);
    lemma_has_leading(x);
    let u = two_to(l - digits + 1);
    lemma_two_to_step(l - digits);
    lemma_two_to_add(l, -digits);
    lemma_two_to_step(-digits);
    let (p, t) = (two_to(l), two_to(-digits));
    assert(p * t <= x * t) by (nonlinear_arith)
        requires
            p <= x,
            t > 0real,
    ;
    let v = x / u;
    let n = nearest_even(v) as real;
    assert(v * u == x) by (nonlinear_arith)
        requires
            v == x / u,
            u > 0real,
    ;
    assert(2real * n <= 2real * v + 1real && 2real * n >= 2real * v - 1real);
    assert(2real * (n * u) <= 2real * (v * u) + u && 2real * (n * u) >= 2real * (v * u) - u)
        by (nonlinear_arith)
        requires
            2real * n <= 2real * v + 1real,
            2real * n >= 2real * v - 1real,
            u > 0real,
    ;
}

/// Two numbers strictly between the same neighbouring integers round alike once
/// the integers have at least one digit more than is kept.
#[verifier::spinoff_prover]
pub proof fn lemma_rounded_between(q: int, s: real, t: real, digits: int)
    requires
        digits >= 1,
        q as real >= two_to(digits),
        0real < s < 1real,
        0real < t < 1real,
    ensures
        rounded(q as real + s, digits) == rounded(q as real + t, digits),
{
    reveal(rounded);
    let (x, y) = (q as real + s, q as real + t);
    lemma_two_to_step(digits);
    let l = lemma_integer_bracket(q);
    lemma_leading(x, l);
    lemma_leading(y, l);
    if l < digits {
        lemma_two_to_increases(l + 1, digits);
    }
    // Half of the grid spacing is an integer.
    let h = pow2((l - digits) as nat) as int;
    lemma_two_to_pow2((l - digits) as nat);
    lemma_two_to_step(l - digits);
    assert(two_to(l - digits + 1) == (2 * h) as real);
    lemma_nearest_between(q, h, s);
    lemma_nearest_between(q, h, t);
}

#[verifier::spinoff_prover]
proof fn lemma_nearest_between(q: int, h: int, s: real)
    requires
        h >= 1,
        q >= 0,
        0real < s < 1real,
    ensures
        nearest_even((q as real + s) / (2 * h) as real) == (if q % (2 * h) < h {
            q / (2 * h)
        } else {
            q / (2 * h) + 1
        }),
{
    let u = 2 * h;
    let (f, r) = (q / u, q % u);
    assert(q == u * f + r && 0 <= r < u) by (nonlinear_arith)
        requires
            u >= 2,
            f == q / u,
            r == q % u,
    ;
    lemma_product_as_real(u, f);
    lemma_quotient_parts((u * f) as real, r as real + s, u as real, f as real);
    let v = (q as real + s) / u as real;
    let d = (r as real + s) / u as real;
    let (ur, rr) = (u as real, r as real);
    assert(0real < d && d < 1real && (d * ur == rr + s)) by (nonlinear_arith)
        requires
            d == (rr + s) / ur,
            ur > 0real,
            0real <= rr,
            rr <= ur - 1real,
            0real < s < 1real,
    ;
    assert(v.floor() == f);
    if r < h {
        assert(2real * d < 1real) by (nonlinear_arith)
            requires
                d * ur == rr + s,
                s < 1real,
                2real * rr <= ur - 2real,
                ur > 0real,
        ;
    } else {
        assert(2real * d > 1real) by (nonlinear_arith)
            requires
                d * ur == rr + s,
                s > 0real,
                2real * rr >= ur,
                ur > 0real,
        ;
    }
}

#[verifier::spinoff_prover]
pub proof fn lemma_quotient_parts(a: real, b: real, u: real, f: real)
    requires
        u > 0real,
        a == u * f,
    ensures
        (a + b) / u == f + b / u,
{
    assert((a + b) / u == f + b / u) by (nonlinear_arith)
        requires
            u > 0real,
            a == u * f,
    ;
}

#[verifier::spinoff_prover]
pub proof fn lemma_dyadic_whole(m: int)
    ensures
        dyadic(m, 0) == m as real,
{
    reveal(dyadic);
    lemma_two_to_zero();
}

#[verifier::spinoff_prover]
pub proof fn lemma_dyadic_unit(e: int)
    ensures
        dyadic(1, e) == two_to(e),
{
    reveal(dyadic);
    let x = two_to(e);
    assert(1real * x == x) by (nonlinear_arith);
}

/// Moves a power of two between the significand and the exponent.
#[verifier::spinoff_prover]
pub proof fn lemma_dyadic_moved(m: int, j: int, e: int)
    requires
        j >= 0,
    ensures
        dyadic(m * pow2(j as nat), e - j) == dyadic(m, e),
{
    reveal(dyadic);
    lemma_two_to_pow2(j as nat);
    lemma_product_as_real(m, pow2(j as nat) as int);
    lemma_two_to_add(j, e - j);
    let (x, a, b) = (m as real, two_to(j), two_to(e - j));
    assert((x * a) * b == x * (a * b)) by (nonlinear_arith);
}

#[verifier::spinoff_prover]
pub proof fn lemma_dyadic_product(a: int, e: int, b: int, f: int)
    ensures
        dyadic(a, e) * dyadic(b, f) == dyadic(a * b, e + f),
{
    reveal(dyadic);
    lemma_product_as_real(a, b);
    lemma_two_to_add(e, f);
    let (m, n, x, y) = (a as real, b as real, two_to(e), two_to(f));
    assert((m * x) * (n * y) == (m * n) * (x * y)) by (nonlinear_arith);
}

#[verifier::spinoff_prover]
pub proof fn lemma_dyadic_sum(a: int, b: int, e: int)
    ensures
        dyadic(a, e) + dyadic(b, e) == dyadic(a + b, e),
{
    reveal(dyadic);
    let (m, n, x) = (a as real, b as real, two_to(e));
    assert(m * x + n * x == (m + n) * x) by (nonlinear_arith);
}

#[verifier::spinoff_prover]
pub proof fn lemma_dyadic_order(a: int, b: int, e: int)
    ensures
        dyadic(a, e) <= dyadic(b, e) <==> a <= b,
        dyadic(0, e) == 0real,
        dyadic(-a, e) == -dyadic(a, e),
{
    reveal(dyadic);
    lemma_two_to_step(e);
    let (m, n, x) = (a as real, b as real, two_to(e));
    assert(m * x <= n * x <==> m <= n) by (nonlinear_arith)
        requires
            x > 0real,
    ;
    assert(0real * x == 0real) by (nonlinear_arith);
    assert((-a) as real == -m);
    assert((-m) * x == -(m * x)) by (nonlinear_arith);
}

/// Rounding a binary number rounds its significand.
#[verifier::spinoff_prover]
pub proof fn lemma_rounded_dyadic(t: int, e: int, m: int, k: int, digits: int)
    requires
        dyadic(m, k) == rounded(t as real, digits),
    ensures
        dyadic(m, k + e) == rounded(dyadic(t, e), digits),
{
    reveal(dyadic);
    lemma_rounded_scales(t as real, e, digits);
    lemma_two_to_add(k, e);
    let (x, a, b) = (m as real, two_to(k), two_to(e));
    assert((x * a) * b == x * (a * b)) by (nonlinear_arith);
}

/// The integer part and the rest of a binary number with `s` fractional digits.
#[verifier::spinoff_prover]
pub proof fn lemma_dyadic_floor(m: int, s: int)
    requires
        s >= 0,
        m >= 0,
    ensures
        dyadic(m, -s).floor() == m / pow2(s as nat) as int,
        dyadic(m, -s) - (m / pow2(s as nat) as int) as real == dyadic(
            m % pow2(s as nat) as int,
            -s,
        ),
        dyadic(m, -s) >= 0real,
{
    let p = pow2(s as nat) as int;
    vstd::arithmetic::power2::lemma_pow2_pos(s as nat);
    let (q, r) = (m / p, m % p);
    assert(m == q * p + r && 0 <= r < p) by (nonlinear_arith)
        requires
            p >= 1,
            q == m / p,
            r == m % p,
    ;
    lemma_dyadic_moved(q, s, 0);
    lemma_dyadic_whole(q);
    lemma_dyadic_sum(q * p, r, -s);
    lemma_dyadic_moved(1, s, 0);
    lemma_dyadic_whole(1);
    lemma_dyadic_order(0, r, -s);
    lemma_dyadic_order(p, r, -s);
    lemma_dyadic_order(0, m, -s);
}

#[verifier::spinoff_prover]
pub proof fn lemma_truncated_dyadic(r: int, s: int)
    requires
        s >= 0,
        r >= 0,
    ensures
        truncated(dyadic(r, -s)) == r / pow2(s as nat) as int,
        truncated(dyadic(-r, -s)) == -(r / pow2(s as nat) as int),
{
    lemma_dyadic_floor(r, s);
    lemma_dyadic_order(r, 0, -s);
}

/// A tie goes to the neighbour whose last digit is even.
#[verifier::spinoff_prover]
pub proof fn lemma_rounded_tie(m: int, e: int, digits: int)
    requires
        digits >= 1,
        pow2((digits - 1) as nat) <= m < pow2(digits as nat),
    ensures
        rounded(dyadic(2 * m + 1, e), digits) == dyadic(
            if m % 2 == 0 {
                m
            } else {
                m + 1
            },
            e + 1,
        ),
{
    let k = if m % 2 == 0 {
        m
    } else {
        m + 1
    };
    let x = dyadic(2 * m + 1, e);
    lemma_pow2_unfold(digits as nat);
    lemma_pow2_unfold((digits + 1) as nat);
    vstd::arithmetic::power2::lemma_pow2_pos((digits - 1) as nat);
    lemma_dyadic_moved(1, digits, e + digits);
    lemma_dyadic_moved(1, digits + 1, e + digits + 1);
    lemma_dyadic_unit(e + digits);
    lemma_dyadic_unit(e + digits + 1);
    let (p, q) = (pow2(digits as nat) as int, pow2((digits + 1) as nat) as int);
    lemma_dyadic_order(p, 2 * m + 1, e);
    lemma_dyadic_order(q, 2 * m + 1, e);
    assert(1 * p == p && 1 * q == q);
    assert(two_to(e + digits) <= x < two_to(e + digits + 1));
    lemma_leading(x, e + digits);
    lemma_two_to_step(e + digits);
    let u = two_to(e + 1);
    lemma_two_to_step(e);
    lemma_two_to_step(e + 1);
    assert(nearest_even(x / u) == k) by {
        reveal(dyadic);
        let (mr, h) = (m as real, two_to(e));
        assert((2 * m + 1) as real == 2real * mr + 1real);
        lemma_half_above(mr, h, u, x);
        lemma_nearest_half(m, x / u);
    }
    assert(rounded(x, digits) == k as real * u) by {
        reveal(rounded);
    }
    assert(dyadic(k, e + 1) == k as real * u) by {
        reveal(dyadic);
    }
}

#[verifier::spinoff_prover]
proof fn lemma_half_above(m: real, h: real, u: real, x: real)
    requires
        h > 0real,
        u == 2real * h,
        x == (2real * m + 1real) * h,
    ensures
        2real * (x / u) == 2real * m + 1real,
{
    let v = x / u;
    assert(v * u == x) by (nonlinear_arith)
        requires
            v == x / u,
            u > 0real,
    ;
    assert(2real * v == 2real * m + 1real) by (nonlinear_arith)
        requires
            v * u == x,
            u == 2real * h,
            x == (2real * m + 1real) * h,
            h > 0real,
    ;
}

#[verifier::spinoff_prover]
proof fn lemma_nearest_half(m: int, v: real)
    requires
        2real * v == 2real * m as real + 1real,
    ensures
        nearest_even(v) == (if m % 2 == 0 {
            m
        } else {
            m + 1
        }),
{
    assert(v.floor() == m);
}

/// No number of that many digits is nearer.
#[verifier::spinoff_prover]
pub proof fn lemma_rounded_nearest(x: real, n: int, e: int, digits: int)
    requires
        digits >= 1,
        -pow2(digits as nat) <= n <= pow2(digits as nat),
    ensures
        ({
            let (r, y) = (rounded(x, digits), dyadic(n, e));
            let (far, near) = (
                if x >= y {
                    x - y
                } else {
                    y - x
                },
                if x >= r {
                    x - r
                } else {
                    r - x
                },
            );
            near <= far
        }),
{
    let y = dyadic(n, e);
    lemma_rounded_exact(n, e, digits);
    if x == 0real {
        reveal(rounded);
    } else if x > 0real {
        lemma_nearest_positive(x, y, digits);
    } else {
        lemma_rounded_negated(x, digits);
        lemma_rounded_negated(y, digits);
        lemma_nearest_positive(-x, -y, digits);
    }
}

#[verifier::spinoff_prover]
proof fn lemma_nearest_positive(x: real, y: real, digits: int)
    requires
        digits >= 1,
        x > 0real,
        rounded(y, digits) == y,
    ensures
        ({
            let r = rounded(x, digits);
            &&& x >= y ==> x - r <= x - y && r - x <= x - y
            &&& x <= y ==> x - r <= y - x && r - x <= y - x
        }),
{
    let r = rounded(x, digits);
    let l = leading(x);
    let u = two_to(l - digits + 1);
    lemma_two_to_step(l - digits + 1);
    lemma_has_leading(x);
    lemma_rounded_bracket(x, digits);
    let m = nearest_even(x / u);
    assert(r == m as real * u) by {
        reveal(rounded);
    }
    lemma_half_unit(x, u, m);
    if y <= 0real {
        lemma_rounded_error(x, digits);
        lemma_two_to_increases(-digits, 0);
        lemma_two_to_zero();
        lemma_two_to_step(-digits);
        let t = two_to(-digits);
        let d = x * t;
        assert(0real <= d <= x) by (nonlinear_arith)
            requires
                d == x * t,
                x > 0real,
                0real < t <= 1real,
        ;
    } else {
        lemma_two_to_pow2(digits as nat);
        lemma_two_to_add(digits, l - digits + 1);
        lemma_two_to_pow2((digits - 1) as nat);
        lemma_two_to_add(digits - 1, l - digits + 1);
        let (p, q) = (pow2(digits as nat) as int, pow2((digits - 1) as nat) as int);
        assert(two_to(l + 1) == p as real * u && two_to(l) == q as real * u);
        if x < y {
            lemma_rounded_monotone(x, y, digits);
        } else {
            lemma_rounded_monotone(y, x, digits);
        }
        if two_to(l) <= y < two_to(l + 1) {
            lemma_leading(y, l);
            let k = nearest_even(y / u);
            assert(y == k as real * u) by {
                reveal(rounded);
            }
            lemma_apart(k, m, u);
        } else if y >= two_to(l + 1) {
            if r < x {
                lemma_apart(p, m, u);
            }
        } else {
            if r > x {
                lemma_apart(q, m, u);
            }
        }
    }
}

/// Two points of a grid are the same or a unit apart.
#[verifier::spinoff_prover]
proof fn lemma_apart(k: int, m: int, u: real)
    requires
        u > 0real,
    ensures
        m as real * u < k as real * u ==> m as real * u + u <= k as real * u,
        k as real * u < m as real * u ==> k as real * u + u <= m as real * u,
{
    let (a, b) = (k as real, m as real);
    if m < k {
        assert(b + 1real <= a);
        assert(b * u + u <= a * u) by (nonlinear_arith)
            requires
                b + 1real <= a,
                u > 0real,
        ;
    } else if k < m {
        assert(a + 1real <= b);
        assert(a * u + u <= b * u) by (nonlinear_arith)
            requires
                a + 1real <= b,
                u > 0real,
        ;
    }
}

#[verifier::spinoff_prover]
proof fn lemma_half_unit(x: real, u: real, m: int)
    requires
        u > 0real,
        m == nearest_even(x / u),
    ensures
        2real * (x - m as real * u) <= u,
        2real * (m as real * u - x) <= u,
{
    let v = x / u;
    let mr = m as real;
    assert(2real * (v - mr) <= 1real && 2real * (mr - v) <= 1real);
    assert(v * u == x) by (nonlinear_arith)
        requires
            v == x / u,
            u > 0real,
    ;
    assert(2real * (x - mr * u) <= u && 2real * (mr * u - x) <= u) by (nonlinear_arith)
        requires
            v * u == x,
            2real * (v - mr) <= 1real,
            2real * (mr - v) <= 1real,
            u > 0real,
    ;
}

/// A rounded number has the digits that it was rounded to, and no more.
#[verifier::spinoff_prover]
pub proof fn lemma_rounded_digits(x: real, digits: int) -> (r: (int, int))
    requires
        digits >= 1,
    ensures
        rounded(x, digits) == dyadic(r.0, r.1),
        -pow2(digits as nat) <= r.0 <= pow2(digits as nat),
        x >= 0real ==> r.0 >= 0,
    decreases (if x < 0real { 1int } else { 0 }),
{
    if x == 0real {
        reveal(rounded);
        lemma_dyadic_whole(0);
        (0, 0)
    } else if x < 0real {
        let (m, e) = lemma_rounded_digits(-x, digits);
        lemma_rounded_negated(x, digits);
        lemma_dyadic_order(m, 0, e);
        (-m, e)
    } else {
        let e = leading(x) - digits + 1;
        let u = two_to(e);
        let m = nearest_even(x / u);
        lemma_rounded_bracket(x, digits);
        lemma_two_to_pow2(digits as nat);
        lemma_two_to_add(digits, e);
        lemma_two_to_step(e);
        lemma_two_to_step(leading(x));
        assert(rounded(x, digits) == m as real * u) by {
            reveal(rounded);
        }
        let (mr, c) = (m as real, pow2(digits as nat) as int as real);
        assert(0real <= mr <= c) by (nonlinear_arith)
            requires
                0real < mr * u <= c * u,
                u > 0real,
        ;
        assert(rounded(x, digits) == dyadic(m, e)) by {
            reveal(dyadic);
        }
        (m, e)
    }
}

} // verus!
