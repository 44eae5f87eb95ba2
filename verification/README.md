# ntru_group_algebra

NTRU-style encryption over the group algebras `Z[G]` of cyclic, dihedral and
symmetric groups, written in Verus. Noncommutative groups use the left-sided
convention `h = f^{-1} g mod q`, `e = p h r + m mod q`, and decryption
multiplies by `f` on the left.

## Layout

- `src/` is the verified library:
  - `arith.rs`: modular arithmetic, Euclid and Bezout, centred lifts.
  - `prime.rs`: the Miller-Rabin primality test; `fermat.rs`: Fermat's
    little theorem, from which every prime passes the test.
  - `group.rs`, `perm.rs`: the groups `C_n`, `D_{2n}`, `S_n` and their
    multiplication tables, with the group axioms proved.
  - `algebra.rs`: the model of `Z[G]` and `Z_m[G]` (products, units, zero
    divisors) and its laws (associativity, identity, congruence, linearity).
  - `folding.rs`, `cyclic.rs`: polynomials modulo `x^n - 1`, cyclic
    convolution and inversion by the extended Euclidean algorithm.
  - `dihedral.rs`: `Z[D_{2n}]` through `Z[C_n]`, the determinant, its
    multiplicativity and the inverse formula.
  - `linalg.rs`: Gauss-Jordan elimination over `Z / m Z` with its kernel.
  - `fft.rs`: the calls into `fft-dihedral` and `fft-symmetric`, with the
    contracts the library relies on.
  - `scheme.rs`: key generation, encryption, decryption and trials, with the
    decryption-correctness law.
  - `rng.rs`, `stats.rs`, `text.rs`, `error.rs`: the generator, the backend
    counters, number formatting and errors.
- `tests/` runs the library on concrete values.
- `app/` is the command-line program around the library.
