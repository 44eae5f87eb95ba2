//! Deterministic Miller-Rabin primality test on 64-bit words.
use crate::arith::{mul_mod, pow_mod};
use crate::fermat::lemma_fermat;
use crate::fft::is_prime_number;
use crate::linalg::lemma_prime_product_nonzero;
use vstd::arithmetic::div_mod::*;
use vstd::arithmetic::mul::*;
use vstd::arithmetic::power::*;
use vstd::arithmetic::power2::*;
use vstd::prelude::*;

verus! {

/// The twelve primes below 40, which serve both for trial division and as
/// Miller-Rabin witnesses.
pub open spec fn small_primes() -> Seq<u64> {
    seq![2u64, 3, 5, 7, 11, 13, 17, 19, 23, 29, 31, 37]
}

/// `n = d * 2^s` with `d` odd, as the pair `(d, s)` (for `n > 0`).
pub open spec fn odd_part(n: nat) -> (nat, nat)
    decreases n,
{
    if n == 0 {
        (0, 0)
    } else if n % 2 == 1 {
        (n, 0)
    } else {
        let r = odd_part(n / 2);
        (r.0, r.1 + 1)
    }
}

/// The Miller-Rabin condition on `value` for witness `base`: with
/// `value - 1 = d * 2^s`, either `base^d = 1` or `base^(d 2^r) = -1` for some `r < s`.
pub open spec fn strong_probable_prime(value: nat, base: nat) -> bool {
    let d = odd_part((value - 1) as nat).0;
    let s = odd_part((value - 1) as nat).1;
    ||| pow(base as int, d) % (value as int) == 1
    ||| exists|r: nat| r < s && #[trigger] pow(base as int, d * pow2(r)) % (value as int) == value - 1
}

/// What `is_prime` decides: `value` is one of the small primes, or it is at
/// least 2, has no small prime factor, and passes Miller-Rabin for every small
/// prime witness below it.
pub open spec fn spec_is_prime(value: u64) -> bool {
    if value < 2 {
        false
    } else if small_primes().contains(value) {
        true
    } else if exists|i: int| 0 <= i < 12 && #[trigger] (value % small_primes()[i]) == 0 {
        false
    } else {
        forall|i: int|
            0 <= i < 12 ==> small_primes()[i] >= value || strong_probable_prime(
                value as nat,
                #[trigger] small_primes()[i] as nat,
            )
    }
}

proof fn lemma_small_primes_coprime(i: int, j: int)
    requires
        0 <= i < j < 12,
    ensures
        small_primes()[j] % small_primes()[i] != 0,
{
    let s = small_primes();
    assert(s[0] == 2 && s[1] == 3 && s[2] == 5 && s[3] == 7 && s[4] == 11 && s[5] == 13);
    assert(s[6] == 17 && s[7] == 19 && s[8] == 23 && s[9] == 29 && s[10] == 31 && s[11] == 37);
    assert(i == 0 || i == 1 || i == 2 || i == 3 || i == 4 || i == 5 || i == 6 || i == 7 || i == 8
        || i == 9 || i == 10);
    assert(j == 1 || j == 2 || j == 3 || j == 4 || j == 5 || j == 6 || j == 7 || j == 8 || j == 9
        || j == 10 || j == 11);
}

proof fn lemma_odd_part_step(n: nat)
    requires
        n > 0,
        n % 2 == 0,
    ensures
        odd_part(n).0 == odd_part(n / 2).0,
        odd_part(n).1 == odd_part(n / 2).1 + 1,
{
}

proof fn lemma_square_pow(base: int, e: nat, m: int)
    requires
        m > 0,
    ensures
        ((pow(base, e) % m) * (pow(base, e) % m)) % m == pow(base, 2 * e) % m,
{
    lemma_mul_mod_noop(pow(base, e), pow(base, e), m);
    lemma_pow_adds(base, e, e);
}

/// Every `e` in `2..=40` is a multiple of one of the first twelve primes,
/// which is at most `e`.
proof fn lemma_small_prime_factor(e: int) -> (i: int)
    requires
        2 <= e <= 40,
    ensures
        0 <= i < 12,
        small_primes()[i] <= e,
        e % (small_primes()[i] as int) == 0,
{
    let s = small_primes();
    assert(s[0] == 2 && s[1] == 3 && s[2] == 5 && s[3] == 7 && s[4] == 11 && s[5] == 13);
    assert(s[6] == 17 && s[7] == 19 && s[8] == 23 && s[9] == 29 && s[10] == 31 && s[11] == 37);
    lemma_mod_self_0(e);
    if e % 2 == 0 {
        0
    } else if e % 3 == 0 {
        1
    } else if e % 5 == 0 {
        2
    } else if e == 7 {
        3
    } else if e == 11 {
        4
    } else if e == 13 {
        5
    } else if e == 17 {
        6
    } else if e == 19 {
        7
    } else if e == 23 {
        8
    } else if e == 29 {
        9
    } else if e == 31 {
        10
    } else {
        assert(e == 37);
        11
    }
}

/// A divisor of a divisor is a divisor.
proof fn lemma_divides_trans(v: int, d: int, c: int)
    requires
        v >= 0,
        d > 0,
        c > 0,
        v % d == 0,
        d % c == 0,
    ensures
        v % c == 0,
{
    lemma_fundamental_div_mod(v, d);
    lemma_fundamental_div_mod(d, c);
    let k = v / d;
    let l = d / c;
    assert(v == c * (l * k)) by (nonlinear_arith)
        requires
            v == d * k,
            d == c * l,
    ;
    lemma_mod_multiples_basic(l * k, c);
    lemma_mul_is_commutative(c, l * k);
}

/// Below `41^2`, a value that `is_prime` accepts is prime: a composite
/// value there has a factor of at most 40, so one of the first twelve primes
/// divides it.
pub proof fn lemma_accepted_small_values_are_prime(v: u64)
    requires
        spec_is_prime(v),
        v < 1681,
    ensures
        is_prime_number(v as nat),
{
    let s = small_primes();
    assert(s[0] == 2 && s[1] == 3 && s[2] == 5 && s[3] == 7 && s[4] == 11 && s[5] == 13);
    assert(s[6] == 17 && s[7] == 19 && s[8] == 23 && s[9] == 29 && s[10] == 31 && s[11] == 37);
    assert forall|d: nat| 1 < d < v implies #[trigger] ((v as nat) % d) != 0 by {
        if (v as nat) % d == 0 {
            let vi = v as int;
            let di = d as int;
            let e: int = if di <= 40 {
                di
            } else {
                lemma_fundamental_div_mod(vi, di);
                let q = vi / di;
                assert(2 <= q <= 40) by (nonlinear_arith)
                    requires
                        vi == di * q,
                        41 <= di < vi,
                        vi < 1681,
                ;
                lemma_mod_multiples_basic(di, q);
                lemma_mul_is_commutative(di, q);
                q
            };
            assert(2 <= e <= 40 && vi % e == 0);
            let i = lemma_small_prime_factor(e);
            lemma_divides_trans(vi, e, s[i] as int);
            if s.contains(v) {
                let j = choose|j: int| 0 <= j < 12 && s[j] == v;
                if i < j {
                    lemma_small_primes_coprime(i, j);
                } else if j < i {
                    assert(s[j] < s[i]);
                }
                // i == j would make the divisor d equal to v
            }
        }
    }
}

/// `n = d 2^s` for `(d, s) = odd_part(n)`.
proof fn lemma_odd_part_decomposes(n: nat)
    requires
        n > 0,
    ensures
        odd_part(n).0 * pow2(odd_part(n).1) == n,
    decreases n,
{
    if n % 2 == 1 {
        lemma_pow2(0);
        lemma_pow0(2);
        assert(odd_part(n) == (n, 0nat));
        assert(pow2(0) == 1);
        assert(odd_part(n).0 * pow2(odd_part(n).1) == n) by (nonlinear_arith)
            requires
                odd_part(n).0 == n,
                pow2(odd_part(n).1) == 1,
        ;
    } else {
        lemma_odd_part_decomposes(n / 2);
        let r = odd_part(n / 2);
        lemma_odd_part_step(n);
        lemma_pow2_unfold(r.1 + 1);
        assert(r.0 * (2 * pow2(r.1)) == 2 * (r.0 * pow2(r.1))) by (nonlinear_arith);
        assert(odd_part(n).0 == r.0 && odd_part(n).1 == r.1 + 1);
        assert(pow2(odd_part(n).1) == 2 * pow2(r.1));
        assert(odd_part(n).0 * pow2(odd_part(n).1) == n) by (nonlinear_arith)
            requires
                odd_part(n).0 == r.0,
                pow2(odd_part(n).1) == 2 * pow2(r.1),
                r.0 * pow2(r.1) == n / 2,
                n % 2 == 0,
        ;
    }
}

/// Along the squaring chain `x_t = base^(d 2^t)` modulo a prime `v`: if
/// `x_r` is not one and `x_s` is, some `x_t` with `r <= t < s` is `v - 1`,
/// since the only square roots of one modulo a prime are one and `v - 1`.
proof fn lemma_square_chain(base: nat, v: nat, d: nat, r: nat, s: nat)
    requires
        is_prime_number(v),
        r <= s,
        pow(base as int, d * pow2(r)) % (v as int) != 1,
        pow(base as int, d * pow2(s)) % (v as int) == 1,
    ensures
        exists|t: nat| r <= t < s && #[trigger] pow(base as int, d * pow2(t)) % (v as int) == v - 1,
    decreases s - r,
{
    let vi = v as int;
    let e = d * pow2(r);
    let y = pow(base as int, e) % vi;
    lemma_mod_bound(pow(base as int, e), vi);
    lemma_square_pow(base as int, e, vi);
    lemma_pow2_unfold(r + 1);
    assert(2 * e == d * pow2(r + 1)) by (nonlinear_arith)
        requires
            e == d * pow2(r),
            pow2(r + 1) == 2 * pow2(r),
    ;
    if pow(base as int, d * pow2(r + 1)) % vi == 1 {
        assert((y * y) % vi == 1);
        assert((y - 1) * (y + 1) == y * y - 1) by (nonlinear_arith);
        lemma_sub_mod_noop(y * y, 1, vi);
        lemma_small_mod(1, v);
        lemma_small_mod(0, v);
        assert(((y - 1) * (y + 1)) % vi == 0);
        if (y + 1) % vi != 0 {
            if (y - 1) % vi != 0 {
                lemma_prime_product_nonzero(y - 1, y + 1, v);
            }
            if y == 0 {
                lemma_mod_add_multiples_vanish(-1, vi);
                lemma_small_mod((vi - 1) as nat, v);
            } else {
                lemma_small_mod((y - 1) as nat, v);
            }
        }
        if y + 1 < vi {
            lemma_small_mod((y + 1) as nat, v);
        }
        assert(y == v - 1);
        assert(pow(base as int, d * pow2(r)) % vi == v - 1);
    } else {
        lemma_square_chain(base, v, d, r + 1, s);
    }
}

/// Every witness below a prime sees it as a strong probable prime: by
/// Fermat's little theorem the chain of squarings ends at one.
proof fn lemma_prime_passes(v: nat, base: nat)
    requires
        is_prime_number(v),
        0 < base < v,
    ensures
        strong_probable_prime(v, base),
{
    let n = (v - 1) as nat;
    let d = odd_part(n).0;
    let s = odd_part(n).1;
    lemma_odd_part_decomposes(n);
    lemma_small_mod(base, v);
    lemma_fermat(base, v);
    assert(pow(base as int, d * pow2(s)) % (v as int) == 1);
    lemma_pow2(0);
    lemma_pow0(2);
    assert(d * pow2(0) == d);
    if pow(base as int, d) % (v as int) != 1 {
        lemma_square_chain(base, v, d, 0, s);
    }
}

/// Every prime passes the test.
pub proof fn lemma_primes_accepted(v: u64)
    requires
        is_prime_number(v as nat),
    ensures
        spec_is_prime(v),
{
    let sp = small_primes();
    assert(sp[0] == 2 && sp[1] == 3 && sp[2] == 5 && sp[3] == 7 && sp[4] == 11 && sp[5] == 13);
    assert(sp[6] == 17 && sp[7] == 19 && sp[8] == 23 && sp[9] == 29 && sp[10] == 31 && sp[11] == 37);
    assert forall|i: int| 0 <= i < 12 implies #[trigger] sp[i] >= 2 by {}
    if !sp.contains(v) {
        assert forall|i: int| 0 <= i < 12 implies #[trigger] (v % sp[i]) != 0 by {
            if sp[i] > v {
                lemma_small_mod(v as nat, sp[i] as nat);
            } else if sp[i] == v {
                assert(sp.contains(v));
            } else {
                assert((v as nat) % (sp[i] as nat) != 0);
            }
        }
        assert forall|i: int| 0 <= i < 12 && sp[i] < v implies strong_probable_prime(v as nat, #[trigger] sp[i] as nat) by {
            lemma_prime_passes(v as nat, sp[i] as nat);
        }
    }
}

/// A power of a residue that is one, or minus one squared, stays one.
proof fn lemma_power_of_one(b: int, e: nat, m: int)
    requires
        m > 1,
        b % m == 1,
    ensures
        pow(b, e) % m == 1,
{
    lemma_pow_mod_noop(b, e, m);
    lemma1_pow(e);
    lemma_small_mod(1, m as nat);
}

/// A strong probable prime passes Fermat's test to the same base.
proof fn lemma_strong_implies_fermat(v: nat, a: nat)
    requires
        v >= 2,
        strong_probable_prime(v, a),
    ensures
        pow(a as int, (v - 1) as nat) % (v as int) == 1,
{
    let vi = v as int;
    let n = (v - 1) as nat;
    let d = odd_part(n).0;
    let s = odd_part(n).1;
    lemma_odd_part_decomposes(n);
    if pow(a as int, d) % vi == 1 {
        lemma_power_of_one(pow(a as int, d), pow2(s), vi);
        lemma_pow_multiplies(a as int, d, pow2(s));
    } else {
        let t = choose|t: nat| t < s && #[trigger] pow(a as int, d * pow2(t)) % vi == v - 1;
        let y = pow(a as int, d * pow2(t));
        // squaring minus one gives one
        lemma_square_pow(a as int, d * pow2(t), vi);
        lemma_pow2_unfold(t + 1);
        assert(2 * (d * pow2(t)) == d * pow2(t + 1)) by (nonlinear_arith)
            requires
                pow2(t + 1) == 2 * pow2(t),
        ;
        assert((vi - 1) * (vi - 1) == vi * (vi - 2) + 1) by (nonlinear_arith);
        lemma_mod_multiples_vanish(vi - 2, 1, vi);
        lemma_small_mod(1, v);
        let z = pow(a as int, d * pow2(t + 1));
        assert(z % vi == 1);
        let rest = (s - (t + 1)) as nat;
        lemma_pow2_adds(t + 1, rest);
        assert(t + 1 + rest == s);
        lemma_power_of_one(z, pow2(rest), vi);
        lemma_pow_multiplies(a as int, d * pow2(t + 1), pow2(rest));
        assert((d * pow2(t + 1)) * pow2(rest) == d * pow2(s)) by (nonlinear_arith)
            requires
                pow2(s) == pow2(t + 1) * pow2(rest),
        ;
    }
}

/// A prime at most 37 is one of the twelve small primes.
proof fn lemma_small_prime_listed(a: nat) -> (i: int)
    requires
        is_prime_number(a),
        a <= 37,
    ensures
        0 <= i < 12,
        small_primes()[i] == a,
{
    let i = lemma_small_prime_factor(a as int);
    let q = small_primes()[i] as nat;
    assert(q >= 2) by {
        let sp = small_primes();
        assert(sp[0] == 2 && sp[1] == 3 && sp[2] == 5 && sp[3] == 7 && sp[4] == 11 && sp[5] == 13);
        assert(sp[6] == 17 && sp[7] == 19 && sp[8] == 23 && sp[9] == 29 && sp[10] == 31 && sp[11] == 37);
    }
    if q < a {
        assert(a % q != 0);
    }
    i
}

/// An accepted value passes the tests to one small prime base below it.
proof fn lemma_accepted_value_passes(v: u64, a: int)
    requires
        spec_is_prime(v),
        2 <= a <= 37,
        is_prime_number(a as nat),
        a < v,
    ensures
        (v as int) % a != 0,
        pow(a, (v - 1) as nat) % (v as int) == 1,
        strong_probable_prime(v as nat, a as nat),
{
    let i = lemma_small_prime_listed(a as nat);
    if small_primes().contains(v) {
        lemma_accepted_small_values_are_prime(v);
        lemma_prime_passes(v as nat, a as nat);
        assert((v as nat) % (a as nat) != 0);
    } else {
        assert((v % small_primes()[i]) != 0);
        assert(strong_probable_prime(v as nat, small_primes()[i] as nat));
    }
    lemma_strong_implies_fermat(v as nat, a as nat);
}

/// `v` passes trial division, Fermat's test and the strong test to every
/// prime base `a <= 37` below it: `a` does not divide `v`,
/// `a^(v-1) == 1 (mod v)`, and the squaring chain of `a` reaches `-1` or
/// starts at `1`.
pub open spec fn passes_small_witnesses(v: int) -> bool {
    forall|a: int|
        #![trigger pow(a, (v - 1) as nat)]
        #![trigger v % a]
        2 <= a <= 37 && is_prime_number(a as nat) && a < v ==> v % a != 0 && pow(a, (v - 1) as nat) % v == 1
            && strong_probable_prime(v as nat, a as nat)
}

/// Every accepted value is at least two and passes trial division and
/// Fermat's test to each prime base up to 37 below it.
pub proof fn lemma_accepted_values_pass_witnesses(v: u64)
    requires
        spec_is_prime(v),
    ensures
        v >= 2,
        passes_small_witnesses(v as int),
{
    let vi = v as int;
    assert forall|a: int| #![trigger pow(a, (vi - 1) as nat)] #![trigger vi % a] 2 <= a <= 37 && is_prime_number(a as nat) && a < vi implies vi % a
        != 0 && pow(a, (vi - 1) as nat) % vi == 1 && strong_probable_prime(vi as nat, a as nat) by {
        lemma_accepted_value_passes(v, a);
    }
}

/// Return whether `value` is prime, by trial division by the first twelve
/// primes and the deterministic Miller-Rabin test with those primes as bases.
/// Every prime is accepted. That no composite 64-bit word is accepted is a
/// computational fact about these bases; it is proved here below 1681 only.
pub fn is_prime(value: u64) -> (r: bool)
    ensures
        r == spec_is_prime(value),
        is_prime_number(value as nat) ==> r,
        r && value < 1681 ==> is_prime_number(value as nat),
        r ==> value >= 2 && passes_small_witnesses(value as int),
{
    proof {
        if spec_is_prime(value) {
            lemma_accepted_values_pass_witnesses(value);
        }
        if is_prime_number(value as nat) {
            lemma_primes_accepted(value);
        }
        if spec_is_prime(value) && value < 1681 {
            lemma_accepted_small_values_are_prime(value);
        }
    }
    if value < 2 {
        return false;
    }
    let small: [u64; 12] = [2, 3, 5, 7, 11, 13, 17, 19, 23, 29, 31, 37];
    assert(small@ =~= small_primes());
    for k in 0..12
        invariant
            small@ == small_primes(),
            value >= 2,
            spec_is_prime(value) ==> value >= 2 && passes_small_witnesses(value as int),
            forall|i: int|
                #![trigger small_primes()[i]]
                0 <= i < k ==> value != small_primes()[i] && value % small_primes()[i] != 0,
    {
        let prime = small[k];
        if value == prime {
            assert(small_primes().contains(value));
            proof {
                lemma_accepted_small_values_are_prime(value);
            }
            return true;
        }
        if value % prime == 0 {
            assert(!small_primes().contains(value)) by {
                if small_primes().contains(value) {
                    let j = choose|j: int| 0 <= j < 12 && small_primes()[j] == value;
                    assert(j > k);
                    lemma_small_primes_coprime(k as int, j);
                }
            }
            return false;
        }
    }
    assert(!small_primes().contains(value));
    assert(!exists|i: int| 0 <= i < 12 && #[trigger] (value % small_primes()[i]) == 0);
    // value - 1 == d * 2^s with d odd
    let mut d: u64 = value - 1;
    let mut s: u64 = 0;
    proof {
        assert(value % 2 != 0);
        lemma2_to64();
    }
    while d % 2 == 0
        invariant
            d > 0,
            s < 64,
            d * pow2(s as nat) == value - 1,
            odd_part((value - 1) as nat).0 == odd_part(d as nat).0,
            odd_part((value - 1) as nat).1 == odd_part(d as nat).1 + s,
            value - 1 < u64::MAX,
        decreases d,
    {
        proof {
            lemma_odd_part_step(d as nat);
            lemma_pow2_unfold((s + 1) as nat);
        }
        s = s + 1;
        d = d / 2;
        proof {
            lemma_mul_is_associative(d as int, 2, pow2((s - 1) as nat) as int);
            assert(d * pow2(s as nat) == value - 1);
            if s >= 64 {
                lemma2_to64_rest();
                if s > 64 {
                    lemma_pow2_strictly_increases(64, s as nat);
                }
                assert(d * pow2(s as nat) >= pow2(s as nat)) by (nonlinear_arith)
                    requires
                        d >= 1,
                ;
            }
        }
    }
    let ghost dd = odd_part((value - 1) as nat).0;
    let ghost ss = odd_part((value - 1) as nat).1;
    assert(dd == d && ss == s);
    assert(s >= 1) by {
        if s == 0 {
            lemma_pow2_pos(0);
            assert(d == value - 1);
        }
    }
    for k in 0..12
        invariant
            small@ == small_primes(),
            value > 37,
            spec_is_prime(value) ==> value >= 2 && passes_small_witnesses(value as int),
            dd == d,
            ss == s,
            s >= 1,
            dd == odd_part((value - 1) as nat).0,
            ss == odd_part((value - 1) as nat).1,
            is_prime_number(value as nat) ==> spec_is_prime(value),
            forall|i: int|
                0 <= i < k ==> small_primes()[i] >= value || strong_probable_prime(
                    value as nat,
                    #[trigger] small_primes()[i] as nat,
                ),
    {
        let base = small[k];
        if base < value {
            let mut x = pow_mod(base, d, value);
            if x == 1 || x == value - 1 {
                proof {
                    if x == value - 1 {
                        lemma2_to64();
                        assert(pow(base as int, dd * pow2(0)) % (value as int) == value - 1);
                    }
                }
            } else {
                let mut probably_prime = false;
                let mut j: u64 = 0;
                proof {
                    lemma2_to64();
                }
                while j < s - 1
                    invariant_except_break
                        !probably_prime,
                        forall|r: nat|
                            r <= j ==> #[trigger] pow(base as int, dd * pow2(r)) % (value as int)
                                != value - 1,
                    invariant
                        value > 37,
                        s >= 1,
                        j <= s - 1,
                        dd == d,
                        x < value,
                        x == pow(base as int, dd * pow2(j as nat)) % (value as int),
                    ensures
                        probably_prime ==> pow(base as int, dd * pow2(j as nat)) % (value as int)
                            == value - 1 && j < s,
                        !probably_prime ==> j == s - 1 && forall|r: nat|
                            r <= j ==> #[trigger] pow(base as int, dd * pow2(r)) % (value as int)
                                != value - 1,
                    decreases s - 1 - j,
                {
                    x = mul_mod(x, x, value);
                    j = j + 1;
                    proof {
                        lemma_square_pow(base as int, dd * pow2((j - 1) as nat), value as int);
                        lemma_pow2_unfold(j as nat);
                        lemma_mul_is_associative(dd as int, 2, pow2((j - 1) as nat) as int);
                        lemma_mul_is_commutative(dd as int, 2);
                        lemma_mul_is_associative(2, dd as int, pow2((j - 1) as nat) as int);
                    }
                    if x == value - 1 {
                        probably_prime = true;
                        break;
                    }
                }
                if !probably_prime {
                    proof {
                        assert(!strong_probable_prime(value as nat, base as nat)) by {
                            if exists|r: nat|
                                r < ss && #[trigger] pow(base as int, dd * pow2(r)) % (value as int)
                                    == value - 1 {
                                let r = choose|r: nat|
                                    r < ss && #[trigger] pow(base as int, dd * pow2(r)) % (
                                    value as int) == value - 1;
                                assert(r <= j);
                            }
                        }
                    }
                    return false;
                }
            }
        }
    }
    true
}

} // verus!
