use vstd::arithmetic::div_mod::{lemma_fundamental_div_mod, lemma_mod_multiples_basic};
use vstd::prelude::*;

verus! {

/// Absolute value of an integer.
pub open spec fn magnitude(x: int) -> int {
    if x < 0 {
        -x
    } else {
        x
    }
}

/// Sign of an integer: -1, 0 or 1.
pub open spec fn signum(x: int) -> int {
    if x < 0 {
        -1
    } else if x == 0 {
        0
    } else {
        1
    }
}

/// Whether `x` is representable as an `i128`.
pub open spec fn fits(x: int) -> bool {
    i128::MIN <= x <= i128::MAX
}

/// `d` divides `n`, for a divisor `d >= 0`. Zero divides only zero.
pub open spec fn divides(d: int, n: int) -> bool {
    if d == 0 {
        n == 0
    } else {
        n % d == 0
    }
}

/// `g` is the greatest common divisor of `a` and `b`: it is nonnegative,
/// divides both, and every positive common divisor divides it.
pub open spec fn is_gcd(g: int, a: int, b: int) -> bool {
    &&& g >= 0
    &&& divides(g, a)
    &&& divides(g, b)
    &&& forall|d: int| #![trigger divides(d, g)] d > 0 && divides(d, a) && divides(d, b) ==> divides(d, g)
}

/// The extended Euclidean recursion on naturals: `(g, x, y)` with
/// `g = gcd(a, b)` and `x * a + y * b == g`.
pub open spec fn euclid(a: nat, b: nat) -> (int, int, int)
    decreases a,
{
    if a == 0 {
        (b as int, 0, if b == 0 { 0 } else { 1 })
    } else {
        let (g, x, y) = euclid(b % a, a);
        (g, y - ((b / a) as int) * x, x)
    }
}

/// The extended gcd of two integers of any sign: the recursion runs on the
/// magnitudes and each coefficient takes the sign of its argument.
pub open spec fn extended_gcd(a: int, b: int) -> (int, int, int) {
    let (g, x, y) = euclid(magnitude(a) as nat, magnitude(b) as nat);
    (g, signum(a) * x, signum(b) * y)
}

pub proof fn lemma_divides_intro(d: int, k: int, n: int)
    requires
        d > 0,
        n == k * d,
    ensures
        divides(d, n),
{
    lemma_mod_multiples_basic(k, d);
}

pub proof fn lemma_divides_elim(d: int, n: int)
    requires
        d > 0,
        divides(d, n),
    ensures
        n == (n / d) * d,
{
    lemma_fundamental_div_mod(n, d);
    assert(d * (n / d) == (n / d) * d) by (nonlinear_arith);
}

/// Any integer combination of two multiples of `d` is a multiple of `d`.
pub proof fn lemma_divides_combination(d: int, a: int, b: int, x: int, y: int)
    requires
        d > 0,
        divides(d, a),
        divides(d, b),
    ensures
        divides(d, x * a + y * b),
{
    lemma_divides_elim(d, a);
    lemma_divides_elim(d, b);
    let ka = a / d;
    let kb = b / d;
    assert(x * a + y * b == (x * ka + y * kb) * d) by (nonlinear_arith)
        requires
            a == ka * d,
            b == kb * d,
    ;
    lemma_divides_intro(d, x * ka + y * kb, x * a + y * b);
}

/// A positive divisor of a nonzero integer is at most its magnitude.
pub proof fn lemma_divisor_bound(d: int, n: int)
    requires
        d > 0,
        n != 0,
        divides(d, n),
    ensures
        d <= magnitude(n),
{
    lemma_divides_elim(d, n);
    let k = n / d;
    assert(d <= magnitude(n)) by (nonlinear_arith)
        requires
            n == k * d,
            n != 0,
            d > 0,
            magnitude(n) == if n < 0 { -n } else { n },
    ;
}

/// A nonnegative `m` is at most `m * g` for positive `g`.
pub proof fn lemma_scaled_bound(m: int, g: int, c: int)
    requires
        m >= 0,
        g > 0,
        m * g <= c,
    ensures
        m <= c,
{
    assert(m * g >= m) by (nonlinear_arith)
        requires
            m >= 0,
            g >= 1,
    ;
}

/// Giving a coefficient the sign of `a` turns its product with the magnitude
/// of `a` into a product with `a` itself.
pub proof fn lemma_signed_coefficient(a: int, x: int)
    ensures
        (signum(a) * x) * a == x * magnitude(a),
        magnitude(signum(a) * x) <= magnitude(x),
        a < 0 ==> signum(a) * x == -x,
        a > 0 ==> signum(a) * x == x,
        a == 0 ==> signum(a) * x == 0,
{
    if a < 0 {
        assert((-1) * x == -x && (-x) * a == x * (-a)) by (nonlinear_arith);
    } else if a == 0 {
        assert(0 * x == 0 && 0 * a == 0 && x * 0 == 0) by (nonlinear_arith);
    } else {
        assert(1 * x == x) by (nonlinear_arith);
    }
}

/// What the Euclidean recursion returns: the gcd, a Bezout pair for it, and
/// the size of that pair.
pub proof fn lemma_euclid(a: nat, b: nat)
    ensures
        ({
            let (g, x, y) = euclid(a, b);
            &&& is_gcd(g, a as int, b as int)
            &&& x * a + y * b == g
            &&& a == 0 ==> g == b && x == 0 && y == signum(b as int)
            &&& a > 0 ==> g > 0 && g <= a && magnitude(y) * g <= a && magnitude(x) * g <= b + g
            &&& a > 0 ==> magnitude(y) <= a && (magnitude(x) <= b || x == 1)
            &&& a > 0 && b % a == 0 ==> g == a && x == 1 && y == 0
            &&& a > 0 && b % a != 0 ==> g < a && magnitude(x) * g <= b
        }),
    decreases a,
{
    let (g, x, y) = euclid(a, b);
    if a == 0 {
        if b > 0 {
            lemma_divides_intro(b as int, 1, b as int);
        }
        assert forall|d: int| d > 0 && divides(d, a as int) && divides(d, b as int) implies divides(
            d,
            g,
        ) by {}
    } else {
        let r = b % a;
        let q = (b / a) as int;
        let (g1, x1, y1) = euclid(r, a);
        lemma_euclid(r, a);
        lemma_fundamental_div_mod(b as int, a as int);
        assert(b == q * a + r) by (nonlinear_arith)
            requires
                b == a * q + r,
        ;
        assert(g == g1 && x == y1 - q * x1 && y == x1);
        assert(x * a + y * b == g) by (nonlinear_arith)
            requires
                x1 * r + y1 * a == g,
                b == q * a + r,
                x == y1 - q * x1,
                y == x1,
        ;
        if r == 0 {
            assert(g == a && x1 == 0 && y1 == 1);
            assert(q * 0 == 0) by (nonlinear_arith);
            assert(x == 1 && y == 0);
            assert(magnitude(y) * g == 0) by (nonlinear_arith)
                requires
                    magnitude(y) == 0,
            ;
            assert(magnitude(x) * g == g) by (nonlinear_arith)
                requires
                    magnitude(x) == 1,
            ;
        } else {
            assert(magnitude(x1) * g <= a + g);
            assert(magnitude(y1) * g <= r);
            if a % r == 0 {
                assert(g == r);
            }
            lemma_divisor_bound(g, a as int);
            assert(g < a);
            assert(magnitude(x1) * g <= a) by {
                if a % r == 0 {
                    assert(x1 == 1);
                    assert(1 * g == g) by (nonlinear_arith);
                }
            }
            assert(q >= 0) by (nonlinear_arith)
                requires
                    b == q * a + r,
                    0 <= r < a,
                    b >= 0,
            ;
            assert(magnitude(x) * g <= b) by (nonlinear_arith)
                requires
                    x == y1 - q * x1,
                    q >= 0,
                    g > 0,
                    magnitude(x1) * g <= a,
                    magnitude(y1) * g <= r,
                    b == q * a + r,
                    magnitude(x) == (if x < 0 { -x } else { x }),
                    magnitude(x1) == (if x1 < 0 { -x1 } else { x1 }),
                    magnitude(y1) == (if y1 < 0 { -y1 } else { y1 }),
            ;
        }
        // g divides b, as it divides a and r
        assert(divides(g, b as int)) by {
            lemma_divides_combination(g, a as int, r as int, q, 1);
            assert(q * a + 1 * r == b) by (nonlinear_arith)
                requires
                    b == q * a + r,
            ;
        }
        assert forall|d: int| d > 0 && divides(d, a as int) && divides(d, b as int) implies divides(
            d,
            g,
        ) by {
            lemma_divides_combination(d, a as int, b as int, x, y);
        }
        if b % a == 0 {
            assert(r == 0);
        } else {
            lemma_scaled_bound(magnitude(x), g, b as int);
        }
        lemma_scaled_bound(magnitude(y), g, a as int);
    }
}

/// A positive `d` divides `n` exactly when it divides `-n`.
pub proof fn lemma_divides_negation(d: int, n: int)
    requires
        d > 0,
    ensures
        divides(d, n) == divides(d, -n),
{
    if divides(d, n) {
        lemma_divides_elim(d, n);
        let k = n / d;
        assert(-n == (-k) * d) by (nonlinear_arith)
            requires
                n == k * d,
        ;
        lemma_divides_intro(d, -k, -n);
    }
    if divides(d, -n) {
        lemma_divides_elim(d, -n);
        let k = (-n) / d;
        assert(n == (-k) * d) by (nonlinear_arith)
            requires
                -n == k * d,
        ;
        lemma_divides_intro(d, -k, n);
    }
}

/// A positive `d` divides `n` exactly when it divides the magnitude of `n`.
pub proof fn lemma_divides_magnitude(d: int, n: int)
    requires
        d > 0,
    ensures
        divides(d, n) == divides(d, magnitude(n)),
{
    lemma_divides_negation(d, n);
}

/// A divisor of `n` divides every multiple of `n`.
pub proof fn lemma_divides_multiple(d: int, n: int, k: int)
    requires
        d >= 0,
        divides(d, n),
    ensures
        divides(d, k * n),
{
    if d == 0 {
        assert(k * 0 == 0) by (nonlinear_arith);
    } else {
        lemma_divides_elim(d, n);
        let c = n / d;
        assert(k * n == (k * c) * d) by (nonlinear_arith)
            requires
                n == c * d,
        ;
        lemma_divides_intro(d, k * c, k * n);
    }
}

/// Divisibility is transitive, whatever the sign of the middle term.
pub proof fn lemma_divides_transitive(a: int, b: int, c: int)
    requires
        a >= 0,
        divides(a, b),
        divides(magnitude(b), c),
    ensures
        divides(a, c),
{
    if b == 0 {
        if a > 0 {
            lemma_divides_intro(a, 0, 0);
        }
    } else {
        lemma_divides_elim(magnitude(b), c);
        let k = c / magnitude(b);
        if b < 0 {
            assert(c == (-k) * b) by (nonlinear_arith)
                requires
                    c == k * (-b),
            ;
            lemma_divides_multiple(a, b, -k);
        } else {
            lemma_divides_multiple(a, b, k);
        }
    }
}

/// What `extended_gcd` returns: the gcd of its arguments, a Bezout pair for
/// it, the pair's size, and the pair in the cases where one argument divides
/// the other.
pub proof fn lemma_extended_gcd(a: int, b: int)
    ensures
        ({
            let (g, x, y) = extended_gcd(a, b);
            &&& is_gcd(g, a, b)
            &&& x * a + y * b == g
            &&& a == 0 ==> g == magnitude(b) && x == 0 && y == signum(b)
            &&& b == 0 ==> g == magnitude(a) && x == signum(a) && y == 0
            &&& a != 0 ==> 0 < g <= magnitude(a) && magnitude(y) <= magnitude(a) && magnitude(x)
                <= magnitude(b) + 1
            &&& a != 0 && divides(magnitude(a), b) ==> g == magnitude(a) && x == signum(a) && y
                == 0
            &&& a != 0 && !divides(magnitude(a), b) ==> g < magnitude(a) && magnitude(x)
                <= magnitude(b)
        }),
{
    let ma = magnitude(a) as nat;
    let mb = magnitude(b) as nat;
    let (g, x0, y0) = euclid(ma, mb);
    let (g1, x, y) = extended_gcd(a, b);
    lemma_euclid(ma, mb);
    assert(g1 == g && x == signum(a) * x0 && y == signum(b) * y0);
    lemma_signed_coefficient(a, x0);
    lemma_signed_coefficient(b, y0);
    if g > 0 {
        lemma_divides_magnitude(g, a);
        lemma_divides_magnitude(g, b);
    }
    assert forall|d: int| d > 0 && divides(d, a) && divides(d, b) implies divides(d, g) by {
        lemma_divides_magnitude(d, a);
        lemma_divides_magnitude(d, b);
    }
    if a != 0 {
        lemma_divides_magnitude(ma as int, b);
        if b == 0 {
            assert(0nat % ma == 0);
        }
    }
}

fn euclid_exec(a: i128, b: i128) -> (r: (i128, i128, i128))
    requires
        0 <= a,
        0 <= b,
    ensures
        (r.0 as int, r.1 as int, r.2 as int) == euclid(a as nat, b as nat),
    decreases a,
{
    if a == 0 {
        (b, 0, if b == 0 { 0 } else { 1 })
    } else {
        let rem: i128 = b % a;
        let quo: i128 = b / a;
        let (g, x1, y1) = euclid_exec(rem, a);
        proof {
            lemma_euclid(rem as nat, a as nat);
            lemma_euclid(a as nat, b as nat);
            lemma_fundamental_div_mod(b as int, a as int);
            assert(0 <= quo * magnitude(x1 as int) <= b && magnitude(quo * x1) == quo * magnitude(
                x1 as int,
            )) by (nonlinear_arith)
                requires
                    b == a * quo + rem,
                    0 <= rem < a,
                    b >= 0,
                    g > 0,
                    magnitude(x1 as int) * g <= a + g,
                    rem > 0 ==> magnitude(x1 as int) * g <= a,
                    rem == 0 ==> x1 == 0,
                    magnitude(x1 as int) == (if x1 < 0 { -x1 } else { x1 as int }),
                    magnitude(quo * x1) == (if quo * x1 < 0 { -(quo * x1) } else { quo * x1 }),
            ;
            let x = euclid(a as nat, b as nat).1;
            assert(x == y1 - quo * x1);
            assert(magnitude(x) <= b || x == 1);
        }
        (g, y1 - quo * x1, x1)
    }
}

/// Extended Euclidean algorithm: returns `(g, x, y)` where `g >= 0` is the
/// greatest common divisor of `a` and `b` and `x * a + y * b == g`.
///
/// Either argument may be zero: `(0, b)` gives `(|b|, 0, sign(b))` and `(a, 0)`
/// gives `(|a|, sign(a), 0)`; so does every `(a, b)` in which a nonzero `a`
/// divides `b`. Both arguments must have a representable magnitude.
pub fn extended_euclid(a: i128, b: i128) -> (r: (i128, i128, i128))
    requires
        a > i128::MIN,
        b > i128::MIN,
    ensures
        (r.0 as int, r.1 as int, r.2 as int) == extended_gcd(a as int, b as int),
        is_gcd(r.0 as int, a as int, b as int),
        r.1 * a + r.2 * b == r.0,
        a == 0 ==> r.0 == magnitude(b as int) && r.1 == 0 && r.2 == signum(b as int),
        b == 0 ==> r.0 == magnitude(a as int) && r.1 == signum(a as int) && r.2 == 0,
        a != 0 && divides(magnitude(a as int), b as int) ==> r.0 == magnitude(a as int) && r.1
            == signum(a as int) && r.2 == 0,
{
    let ma: i128 = if a < 0 { -a } else { a };
    let mb: i128 = if b < 0 { -b } else { b };
    let (g, x, y) = euclid_exec(ma, mb);
    proof {
        lemma_euclid(ma as nat, mb as nat);
        lemma_extended_gcd(a as int, b as int);
        lemma_signed_coefficient(a as int, x as int);
        lemma_signed_coefficient(b as int, y as int);
        assert(a == 0 ==> x == 0);
        assert(b == 0 ==> y == 0) by {
            if ma > 0 && b == 0 {
                assert(0nat % (ma as nat) == 0);
            }
        }
    }
    let sx: i128 = if a < 0 { -x } else { x };
    let sy: i128 = if b < 0 { -y } else { y };
    (g, sx, sy)
}

/// The floored quotient `q / g` by a positive divisor; it is the exact
/// quotient where `g` divides `q`.
pub fn quotient(q: i128, g: i128) -> (z: i128)
    requires
        g > 0,
    ensures
        z == (q as int) / (g as int),
        magnitude(z as int) <= magnitude(q as int),
{
    proof {
        lemma_fundamental_div_mod(q as int, g as int);
        let d = (q as int) / (g as int);
        let r = (q as int) % (g as int);
        assert(0 <= r < g) by (nonlinear_arith)
            requires
                r == (q as int) % (g as int),
                g > 0,
        ;
        assert((q >= 0 ==> 0 <= d <= q) && (q < 0 ==> q <= d < 0)) by (nonlinear_arith)
            requires
                q == g * d + r,
                0 <= r < g,
        ;
    }
    match q.checked_div_euclid(g) {
        Some(z) => z,
        None => 0,
    }
}

} // verus!
