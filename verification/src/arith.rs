//! Integer and modular arithmetic on machine words.
use vstd::arithmetic::div_mod::*;
use vstd::arithmetic::mul::*;
use vstd::arithmetic::power::*;
use vstd::prelude::*;

verus! {

/// Greatest common divisor of two naturals, by Euclid's recursion.
pub open spec fn spec_gcd(a: nat, b: nat) -> nat
    decreases b,
{
    if b == 0 {
        a
    } else {
        spec_gcd(b, a % b)
    }
}

/// Bezout coefficients produced by the extended Euclidean recursion.
pub open spec fn spec_extended_gcd(a: int, b: int) -> (int, int, int)
    decreases b,
    when b >= 0
{
    if b <= 0 {
        (a, 1, 0)
    } else {
        let r = spec_extended_gcd(b, a % b);
        (r.0, r.2, r.1 - (a / b) * r.2)
    }
}

/// The centred representative of `value` modulo `modulus`, in `(-m/2, m/2]`.
pub open spec fn spec_center_lift(value: int, modulus: int) -> int {
    let residue = value % modulus;
    if residue > modulus / 2 {
        residue - modulus
    } else {
        residue
    }
}

/// `|x|` for integers.
pub open spec fn abs(x: int) -> int {
    if x < 0 {
        -x
    } else {
        x
    }
}

/// Modular addition.
pub fn add_mod(lhs: u64, rhs: u64, modulus: u64) -> (r: u64)
    requires
        modulus > 0,
    ensures
        r == (lhs + rhs) % (modulus as int),
{
    let s: u128 = lhs as u128 + rhs as u128;
    let m: u128 = modulus as u128;
    let r: u128 = s % m;
    assert(r < m);
    r as u64
}

/// Modular subtraction.
pub fn sub_mod(lhs: u64, rhs: u64, modulus: u64) -> (r: u64)
    requires
        modulus > 0,
        rhs <= lhs + modulus,
    ensures
        r == (lhs + modulus - rhs) % (modulus as int),
        r == (lhs - rhs) % (modulus as int),
{
    let s: u128 = lhs as u128 + modulus as u128 - rhs as u128;
    let m: u128 = modulus as u128;
    let r: u128 = s % m;
    assert(r < m);
    proof {
        lemma_mod_add_multiples_vanish(lhs - rhs, modulus as int);
    }
    r as u64
}

/// Modular multiplication.
pub fn mul_mod(lhs: u64, rhs: u64, modulus: u64) -> (r: u64)
    requires
        modulus > 0,
    ensures
        r == (lhs * rhs) % (modulus as int),
{
    proof {
        lemma_mul_upper_bound(lhs as int, u64::MAX as int, rhs as int, u64::MAX as int);
    }
    let p: u128 = lhs as u128 * rhs as u128;
    let m: u128 = modulus as u128;
    let r: u128 = p % m;
    assert(r < m);
    r as u64
}

proof fn lemma_pow_square_step(acc: int, b: int, e: nat, m: int)
    requires
        m > 0,
    ensures
        e % 2 == 1 ==> (((acc * b) % m) * pow((b * b) % m, e / 2)) % m == (acc * pow(b, e)) % m,
        e % 2 == 0 ==> (acc * pow((b * b) % m, e / 2)) % m == (acc * pow(b, e)) % m,
{
    let k: nat = e / 2;
    lemma_pow_multiplies(b, 2, k);
    lemma_square_is_pow2(b);
    assert(pow(b, 2 * k) == pow(b * b, k));
    lemma_pow_mod_noop(b * b, k, m);
    if e % 2 == 1 {
        assert(e == 2 * k + 1);
        lemma_pow_adds(b, 2 * k, 1);
        lemma_pow1(b);
        assert(pow(b, e) == pow(b * b, k) * b);
        // ((acc*b)%m * pow((b*b)%m,k)) % m == (acc*b * pow((b*b)%m, k)) % m
        lemma_mul_mod_noop_left(acc * b, pow((b * b) % m, k), m);
        // == (acc*b * pow(b*b, k)) % m
        lemma_mul_mod_noop_right(acc * b, pow((b * b) % m, k), m);
        lemma_mul_mod_noop_right(acc * b, pow(b * b, k), m);
        lemma_mul_is_associative(acc, b, pow(b * b, k));
        lemma_mul_is_commutative(b, pow(b * b, k));
        lemma_mul_is_associative(acc, pow(b * b, k), b);
    } else {
        assert(e == 2 * k);
        lemma_mul_mod_noop_right(acc, pow((b * b) % m, k), m);
        lemma_mul_mod_noop_right(acc, pow(b * b, k), m);
    }
}

/// Modular exponentiation by repeated squaring.
pub fn pow_mod(base: u64, exp: u64, modulus: u64) -> (r: u64)
    requires
        modulus > 0,
    ensures
        r == pow(base as int, exp as nat) % (modulus as int),
        r < modulus,
{
    let mut acc: u64 = 1 % modulus;
    let mut b: u64 = base % modulus;
    let mut e: u64 = exp;
    proof {
        lemma_pow_mod_noop(base as int, exp as nat, modulus as int);
        lemma_mul_basics(pow((base % modulus) as int, exp as nat));
        lemma_mul_mod_noop_left(1, pow((base % modulus) as int, exp as nat), modulus as int);
    }
    while e > 0
        invariant
            modulus > 0,
            acc < modulus,
            b < modulus,
            (acc * pow(b as int, e as nat)) % (modulus as int) == pow(base as int, exp as nat) % (
            modulus as int),
        decreases e,
    {
        let bit = e & 1;
        proof {
            assert(bit == e % 2) by (bit_vector)
                requires
                    bit == e & 1,
            ;
            lemma_pow_square_step(acc as int, b as int, e as nat, modulus as int);
        }
        if bit == 1 {
            acc = mul_mod(acc, b, modulus);
        }
        b = mul_mod(b, b, modulus);
        let ghost old_e = e;
        e = e >> 1;
        proof {
            assert(e == old_e / 2) by (bit_vector)
                requires
                    e == old_e >> 1,
            ;
        }
    }
    proof {
        lemma_pow0(b as int);
        lemma_small_mod(acc as nat, modulus as nat);
    }
    acc
}

/// Greatest common divisor.
pub fn gcd(a: u64, b: u64) -> (r: u64)
    ensures
        r == spec_gcd(a as nat, b as nat),
{
    let ghost a0 = a;
    let ghost b0 = b;
    let mut a = a;
    let mut b = b;
    while b != 0
        invariant
            spec_gcd(a as nat, b as nat) == spec_gcd(a0 as nat, b0 as nat),
        decreases b,
    {
        let r = a % b;
        a = b;
        b = r;
    }
    a
}


/// Facts about Euclid's recursion: the result divides both arguments,
/// and every common divisor of the arguments divides it.
pub proof fn lemma_gcd_divides(a: nat, b: nat)
    ensures
        spec_gcd(a, b) > 0 ==> a % spec_gcd(a, b) == 0 && b % spec_gcd(a, b) == 0,
        spec_gcd(a, b) == 0 <==> a == 0 && b == 0,
    decreases b,
{
    if b > 0 {
        lemma_gcd_divides(b, a % b);
        let g = spec_gcd(a, b);
        if g > 0 {
            lemma_fundamental_div_mod(a as int, b as int);
            let q = a / b;
            let r = a % b;
            // a == b * q + r, and g divides b and r
            lemma_mul_mod_noop_right(q as int, b as int, g as int);
            lemma_mul_is_commutative(q as int, b as int);
            lemma_add_mod_noop((b * q) as int, r as int, g as int);
            assert((q * (b % g)) as int == 0) by {
                lemma_mul_by_zero_is_zero(q as int);
            }
            lemma_small_mod(0, g);
        }
    }
}

/// Every common divisor of `a` and `b` divides `spec_gcd(a, b)`.
pub proof fn lemma_common_divisor_divides_gcd(a: nat, b: nat, d: nat)
    requires
        d > 0,
        a % d == 0,
        b % d == 0,
    ensures
        spec_gcd(a, b) % d == 0,
    decreases b,
{
    if b > 0 {
        lemma_fundamental_div_mod(a as int, b as int);
        let q = a / b;
        let r = a % b;
        lemma_mul_mod_noop_right(q as int, b as int, d as int);
        lemma_mul_is_commutative(q as int, b as int);
        assert((q * (b % d)) as int == 0) by {
            lemma_mul_by_zero_is_zero(q as int);
        }
        lemma_small_mod(0, d);
        assert(((b * q) as int) % (d as int) == 0);
        lemma_sub_mod_noop(a as int, (b * q) as int, d as int);
        assert(r == a - b * q);
        lemma_common_divisor_divides_gcd(b, r, d);
    }
}

/// Bezout's identity for the extended Euclidean recursion.
pub proof fn lemma_bezout(a: nat, b: nat)
    ensures
        spec_extended_gcd(a as int, b as int).0 == spec_gcd(a, b),
        a * spec_extended_gcd(a as int, b as int).1 + b * spec_extended_gcd(a as int, b as int).2
            == spec_gcd(a, b),
    decreases b,
{
    if b > 0 {
        lemma_bezout(b, a % b);
        let r = spec_extended_gcd(b as int, (a % b) as int);
        let q = (a / b) as int;
        lemma_fundamental_div_mod(a as int, b as int);
        // a*y + b*(x - q*y) == b*x + (a - b*q)*y
        lemma_mul_is_distributive_sub(b as int, r.1, q * r.2);
        lemma_mul_is_associative(b as int, q, r.2);
        lemma_mul_is_distributive_sub_other_way(r.2, a as int, b * q);
        lemma_mul_is_commutative(a as int, r.2);
        lemma_mul_is_commutative((a % b) as int, r.2);
        lemma_mul_is_commutative(b * q, r.2);
    }
}

/// The extended Euclidean algorithm on non-negative arguments.
fn extended_gcd(a: i128, b: i128) -> (r: (i128, i128, i128))
    requires
        0 <= a <= u64::MAX,
        0 <= b <= u64::MAX,
    ensures
        r.0 == spec_extended_gcd(a as int, b as int).0,
        r.1 == spec_extended_gcd(a as int, b as int).1,
        r.2 == spec_extended_gcd(a as int, b as int).2,
        b == 0 ==> r.1 == 1 && r.2 == 0,
        abs(r.1 as int) <= if b == 0 { 1 } else { b as int },
        abs(r.2 as int) <= if a == 0 { 1 } else { a as int },
    decreases b,
{
    if b == 0 {
        (a, 1, 0)
    } else {
        let rem = a % b;
        let quo = a / b;
        assert(rem == (a as int) % (b as int) && quo == (a as int) / (b as int));
        proof {
            lemma_fundamental_div_mod(a as int, b as int);
            lemma_mod_bound(a as int, b as int);
        }
        let (g, x, y) = extended_gcd(b, rem);
        proof {
            // |quo * y| <= quo * b <= a
            if rem == 0 {
                assert(y == 0);
                lemma_mul_by_zero_is_zero(quo as int);
            } else {
                lemma_mul_nonnegative(quo as int, b as int);
                if y >= 0 {
                    lemma_mul_upper_bound(quo as int, quo as int, y as int, b as int);
                    lemma_mul_nonnegative(quo as int, y as int);
                } else {
                    lemma_mul_upper_bound(quo as int, quo as int, -y as int, b as int);
                    lemma_mul_nonnegative(quo as int, -y as int);
                    lemma_mul_unary_negation(quo as int, -y as int);
                }
            }
            lemma_mul_is_commutative(quo as int, b as int);
        }
        let qy = quo * y;
        (g, y, x - qy)
    }
}

/// `value * x` is congruent to one modulo `modulus` for at most one `x` in `[0, modulus)`.
pub proof fn lemma_inverse_unique(value: int, x: int, y: int, modulus: int)
    requires
        modulus > 0,
        0 <= x < modulus,
        0 <= y < modulus,
        (value * x) % modulus == 1int % modulus,
        (value * y) % modulus == 1int % modulus,
    ensures
        x == y,
{
    // x == x * (value * y) == (x * value) * y == y   (mod modulus)
    lemma_mul_mod_noop_right(x, value * y, modulus);
    lemma_mul_mod_noop_right(y, value * x, modulus);
    lemma_mul_mod_noop_right(x, 1, modulus);
    lemma_mul_mod_noop_right(y, 1, modulus);
    lemma_mul_is_associative(x, value, y);
    lemma_mul_is_associative(y, value, x);
    lemma_mul_is_commutative(x, value);
    lemma_mul_is_commutative(y, value);
    lemma_mul_is_commutative(x * value, y);
    lemma_small_mod(x as nat, modulus as nat);
    lemma_small_mod(y as nat, modulus as nat);
}

/// Multiplicative inverse modulo `modulus`.
pub fn inv_mod(value: u64, modulus: u64) -> (r: Option<u64>)
    requires
        modulus > 0 || value != 1,
    ensures
        r.is_some() <==> spec_gcd(value as nat, modulus as nat) == 1,
        r matches Some(x) ==> x < modulus && (value * x) % (modulus as int) == 1int % (
        modulus as int),
{
    let (g, x, _) = extended_gcd(value as i128, modulus as i128);
    proof {
        lemma_bezout(value as nat, modulus as nat);
    }
    if g != 1 {
        None
    } else {
        if modulus == 0 {
            proof {
                assert(spec_gcd(value as nat, 0) == value);
            }
            assert(false);
        }
        let m: i128 = modulus as i128;
        let red = x.checked_rem_euclid(m);
        proof {
            lemma_mod_bound(x as int, m as int);
        }
        let res: i128 = match red {
            Some(v) => v,
            None => {
                assert(false);
                0
            },
        };
        proof {
            let ghost y = spec_extended_gcd(value as int, modulus as int).2;
            // value * x + modulus * y == 1, so value * (x % m) == 1 (mod m)
            lemma_mul_mod_noop_right(value as int, x as int, m as int);
            lemma_mod_multiples_vanish(y, value * x, m as int);
            lemma_mul_is_commutative(modulus as int, y);
        }
        Some(res as u64)
    }
}

/// Center lift one residue into `(-modulus/2, modulus/2]`.
pub fn center_lift(value: u64, modulus: u64) -> (r: i64)
    requires
        0 < modulus <= i64::MAX,
    ensures
        r == spec_center_lift(value as int, modulus as int),
{
    let residue = value % modulus;
    if residue > modulus / 2 {
        residue as i64 - modulus as i64
    } else {
        residue as i64
    }
}

/// Center lift a vector.
pub fn center_lift_vector(values: &[u64], modulus: u64) -> (r: Vec<i64>)
    requires
        0 < modulus <= i64::MAX,
    ensures
        r.len() == values.len(),
        forall|i: int|
            0 <= i < values.len() ==> r[i] == spec_center_lift(values[i] as int, modulus as int),
{
    let mut out: Vec<i64> = Vec::new();
    for i in 0..values.len()
        invariant
            0 < modulus <= i64::MAX,
            out.len() == i,
            forall|k: int|
                0 <= k < i ==> out[k] == spec_center_lift(values[k] as int, modulus as int),
    {
        out.push(center_lift(values[i], modulus));
    }
    out
}

/// Convert signed coefficients to canonical residues.
pub fn signed_to_mod(values: &[i64], modulus: u64) -> (r: Vec<u64>)
    requires
        modulus > 0,
    ensures
        r.len() == values.len(),
        forall|i: int| 0 <= i < values.len() ==> r[i] == (values[i] as int) % (modulus as int),
{
    let mut out: Vec<u64> = Vec::new();
    let m: i128 = modulus as i128;
    for i in 0..values.len()
        invariant
            m == modulus,
            modulus > 0,
            out.len() == i,
            forall|k: int| 0 <= k < i ==> out[k] == (values[k] as int) % (modulus as int),
    {
        let v: i128 = values[i] as i128;
        proof {
            lemma_mod_bound(v as int, m as int);
        }
        let red: i128 = match v.checked_rem_euclid(m) {
            Some(x) => x,
            None => {
                assert(false);
                0
            },
        };
        out.push(red as u64);
    }
    out
}

/// Coefficientwise sum of two signed vectors, as long as the shorter one.
pub fn add_i64_vectors(lhs: &[i64], rhs: &[i64]) -> (r: Vec<i64>)
    requires
        forall|i: int|
            #![trigger lhs[i], rhs[i]]
            0 <= i < lhs.len() && i < rhs.len() ==> i64::MIN <= lhs[i] + rhs[i] <= i64::MAX,
    ensures
        r.len() == if lhs.len() < rhs.len() { lhs.len() } else { rhs.len() },
        forall|i: int| 0 <= i < r.len() ==> r[i] == lhs[i] + rhs[i],
{
    let n = if lhs.len() < rhs.len() { lhs.len() } else { rhs.len() };
    let mut out: Vec<i64> = Vec::new();
    for i in 0..n
        invariant
            n <= lhs.len(),
            n <= rhs.len(),
            forall|k: int|
                #![trigger lhs[k], rhs[k]]
                0 <= k < lhs.len() && k < rhs.len() ==> i64::MIN <= lhs[k] + rhs[k] <= i64::MAX,
            out.len() == i,
            forall|k: int| 0 <= k < i ==> out[k] == lhs[k] + rhs[k],
    {
        out.push(lhs[i] + rhs[i]);
    }
    out
}

/// Multiply every coefficient of a signed vector by `scalar`.
pub fn scalar_mul_i64(scalar: i64, values: &[i64]) -> (r: Vec<i64>)
    requires
        forall|i: int| 0 <= i < values.len() ==> i64::MIN <= scalar * #[trigger] values[i] <= i64::MAX,
    ensures
        r.len() == values.len(),
        forall|i: int| 0 <= i < values.len() ==> r[i] == scalar * values[i],
{
    let mut out: Vec<i64> = Vec::new();
    for i in 0..values.len()
        invariant
            forall|k: int| 0 <= k < values.len() ==> i64::MIN <= scalar * #[trigger] values[k] <= i64::MAX,
            out.len() == i,
            forall|k: int| 0 <= k < i ==> out[k] == scalar * values[k],
    {
        out.push(scalar * values[i]);
    }
    out
}

} // verus!
