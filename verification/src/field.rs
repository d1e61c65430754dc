//! The quadratic extension of the Goldilocks field, in which claims are made and checked.
//!
//! An element is modelled by the pair `(a, b)` of integers modulo the prime that stands for
//! `a + b * X`, where `X * X = 7`.
use crate::prime::law_invertible;
use vstd::arithmetic::div_mod::*;
use vstd::arithmetic::mul::*;
use vstd::prelude::*;

verus! {

/// The Goldilocks prime, `2^64 - 2^32 + 1`.
pub const MODULUS: u64 = 0xFFFF_FFFF_0000_0001;

/// The Goldilocks prime as a mathematical integer.
pub open spec fn modulus() -> int {
    0xFFFF_FFFF_0000_0001
}

/// A field element as a mathematical value.
pub type Fe = (int, int);

/// Both coordinates are reduced.
pub open spec fn is_fe(x: Fe) -> bool {
    0 <= x.0 < modulus() && 0 <= x.1 < modulus()
}

/// Every entry of `s` is reduced.
pub open spec fn all_fe(s: Seq<Fe>) -> bool {
    forall|i: int| 0 <= i < s.len() ==> is_fe(#[trigger] s[i])
}

pub open spec fn fzero() -> Fe {
    (0, 0)
}

pub open spec fn fone() -> Fe {
    (1, 0)
}

/// The image of an integer.
pub open spec fn fint(n: int) -> Fe {
    (n % modulus(), 0)
}

#[verifier::opaque]
pub open spec fn fadd(x: Fe, y: Fe) -> Fe {
    ((x.0 + y.0) % modulus(), (x.1 + y.1) % modulus())
}

#[verifier::opaque]
pub open spec fn fneg(x: Fe) -> Fe {
    ((-x.0) % modulus(), (-x.1) % modulus())
}

#[verifier::opaque]
pub open spec fn fsub(x: Fe, y: Fe) -> Fe {
    ((x.0 - y.0) % modulus(), (x.1 - y.1) % modulus())
}

#[verifier::opaque]
pub open spec fn fmul(x: Fe, y: Fe) -> Fe {
    ((x.0 * y.0 + 7 * (x.1 * y.1)) % modulus(), (x.0 * y.1 + x.1 * y.0) % modulus())
}

/// `x` has a multiplicative inverse.
pub open spec fn finvertible(x: Fe) -> bool {
    exists|y: Fe| is_fe(y) && #[trigger] fmul(x, y) == fone()
}

/// The multiplicative inverse of `x`, where it has one.
pub open spec fn finv(x: Fe) -> Fe {
    choose|y: Fe| is_fe(y) && #[trigger] fmul(x, y) == fone()
}

/// `x` to the power `n`.
pub open spec fn fpow(x: Fe, n: nat) -> Fe
    decreases n,
{
    if n == 0 {
        fone()
    } else {
        fmul(fpow(x, (n - 1) as nat), x)
    }
}

/// `f(0) + ... + f(n - 1)`.
pub open spec fn fsum(n: nat, f: spec_fn(int) -> Fe) -> Fe
    decreases n,
{
    if n == 0 {
        fzero()
    } else {
        fadd(fsum((n - 1) as nat, f), f(n - 1))
    }
}

/// `f(0) * ... * f(n - 1)`.
pub open spec fn fprod(n: nat, f: spec_fn(int) -> Fe) -> Fe
    decreases n,
{
    if n == 0 {
        fone()
    } else {
        fmul(fprod((n - 1) as nat, f), f(n - 1))
    }
}

// ---------------------------------------------------------------------------------------
// Ring laws
// ---------------------------------------------------------------------------------------

/// Every operation gives a reduced value.
pub proof fn lemma_fe_closed(x: Fe, y: Fe)
    ensures
        is_fe(fadd(x, y)),
        is_fe(fsub(x, y)),
        is_fe(fmul(x, y)),
        is_fe(fneg(x)),
{
    reveal(fadd);
    reveal(fsub);
    reveal(fmul);
    reveal(fneg);
}

pub proof fn lemma_fadd_comm(x: Fe, y: Fe)
    ensures
        fadd(x, y) == fadd(y, x),
{
    reveal(fadd);
}

pub proof fn lemma_fadd_assoc(x: Fe, y: Fe, z: Fe)
    ensures
        fadd(fadd(x, y), z) == fadd(x, fadd(y, z)),
{
    reveal(fadd);
}

pub proof fn lemma_fadd_zero(x: Fe)
    requires
        is_fe(x),
    ensures
        fadd(x, fzero()) == x,
        fadd(fzero(), x) == x,
        fsub(x, fzero()) == x,
{
    reveal(fadd);
    reveal(fsub);
}

/// Reducing one term of a sum or difference changes nothing modulo the prime.
proof fn lemma_mod_term(a: int, b: int)
    ensures
        (a + b % modulus()) % modulus() == (a + b) % modulus(),
        (a % modulus() + b) % modulus() == (a + b) % modulus(),
        (a % modulus() - b) % modulus() == (a - b) % modulus(),
        (a - b % modulus()) % modulus() == (a - b) % modulus(),
{
    let p = modulus();
    lemma_add_mod_noop_right(a, b, p);
    lemma_add_mod_noop_right(b, a, p);
    lemma_sub_mod_noop_right(a, b, p);
    lemma_add_mod_noop_right(-b, a, p);
}

pub proof fn lemma_fsub(x: Fe, y: Fe)
    ensures
        fsub(x, y) == fadd(x, fneg(y)),
        fsub(x, x) == fzero(),
        fadd(x, fneg(x)) == fzero(),
        is_fe(x) ==> fadd(fsub(x, y), y) == x,
        is_fe(x) ==> fsub(fadd(x, y), y) == x,
{
    reveal(fadd);
    reveal(fsub);
    reveal(fneg);
    let p = modulus();
    lemma_mod_term(x.0, -y.0);
    lemma_mod_term(x.1, -y.1);
    lemma_mod_term(x.0, -x.0);
    lemma_mod_term(x.1, -x.1);
    lemma_mod_term(x.0 - y.0, y.0);
    lemma_mod_term(x.1 - y.1, y.1);
    lemma_mod_term(x.0 + y.0, y.0);
    lemma_mod_term(x.1 + y.1, y.1);
    if is_fe(x) {
        lemma_small_mod(x.0 as nat, p as nat);
        lemma_small_mod(x.1 as nat, p as nat);
    }
}

pub proof fn lemma_fmul_comm(x: Fe, y: Fe)
    ensures
        fmul(x, y) == fmul(y, x),
{
    reveal(fmul);
    lemma_mul_is_commutative(x.0, y.0);
    lemma_mul_is_commutative(x.1, y.1);
    lemma_mul_is_commutative(x.0, y.1);
    lemma_mul_is_commutative(x.1, y.0);
}

pub proof fn lemma_fmul_one(x: Fe)
    requires
        is_fe(x),
    ensures
        fmul(x, fone()) == x,
        fmul(fone(), x) == x,
{
    reveal(fmul);
    lemma_fmul_comm(x, fone());
    assert(x.1 * 0 == 0 && x.0 * 0 == 0 && x.0 * 1 == x.0 && x.1 * 1 == x.1);
}

pub proof fn lemma_fmul_zero(x: Fe)
    ensures
        fmul(x, fzero()) == fzero(),
        fmul(fzero(), x) == fzero(),
{
    reveal(fmul);
    lemma_fmul_comm(x, fzero());
    assert(x.1 * 0 == 0 && x.0 * 0 == 0);
}

/// Reducing the left factors of a two-term sum changes nothing modulo the prime.
proof fn lemma_mod_lin2(a: int, b: int, c: int, d: int)
    ensures
        ((a % modulus()) * c + (b % modulus()) * d) % modulus() == (a * c + b * d) % modulus(),
{
    let p = modulus();
    lemma_mul_mod_noop_left(a, c, p);
    lemma_mul_mod_noop_left(b, d, p);
    lemma_add_mod_noop((a % p) * c, (b % p) * d, p);
    lemma_add_mod_noop(a * c, b * d, p);
}

proof fn lemma_fmul_expand(x: Fe, y: Fe, z: Fe)
    ensures
        fmul(fmul(x, y), z).0 == ((x.0 * y.0 + 7 * (x.1 * y.1)) * z.0 + (x.0 * y.1 + x.1 * y.0) * (
        7 * z.1)) % modulus(),
        fmul(fmul(x, y), z).1 == ((x.0 * y.0 + 7 * (x.1 * y.1)) * z.1 + (x.0 * y.1 + x.1 * y.0)
            * z.0) % modulus(),
{
    reveal(fmul);
    let p = modulus();
    let a = x.0 * y.0 + 7 * (x.1 * y.1);
    let b = x.0 * y.1 + x.1 * y.0;
    lemma_mod_lin2(a, b, z.0, 7 * z.1);
    lemma_mod_lin2(a, b, z.1, z.0);
    assert(7 * ((b % p) * z.1) == (b % p) * (7 * z.1)) by (nonlinear_arith);
}

/// The two ways of expanding a product of three elements agree.
proof fn lemma_expand(a: int, b: int, c: int, d: int, e: int, f: int)
    ensures
        (a * c + 7 * (b * d)) * e + (a * d + b * c) * (7 * f) == (c * e + 7 * (d * f)) * a + (c * f
            + d * e) * (7 * b),
        (a * c + 7 * (b * d)) * f + (a * d + b * c) * e == (c * e + 7 * (d * f)) * b + (c * f + d
            * e) * a,
{
    lemma_two_terms(a * c, 7 * (b * d), e);
    lemma_two_terms(a * d, b * c, 7 * f);
    lemma_two_terms(c * e, 7 * (d * f), a);
    lemma_two_terms(c * f, d * e, 7 * b);
    lemma_two_terms(a * c, 7 * (b * d), f);
    lemma_two_terms(a * d, b * c, e);
    lemma_two_terms(c * e, 7 * (d * f), b);
    lemma_two_terms(c * f, d * e, a);
    assert((a * c) * e == (c * e) * a) by (nonlinear_arith);
    assert((7 * (b * d)) * e == (d * e) * (7 * b)) by (nonlinear_arith);
    assert((a * d) * (7 * f) == (7 * (d * f)) * a) by (nonlinear_arith);
    assert((b * c) * (7 * f) == (c * f) * (7 * b)) by (nonlinear_arith);
    assert((a * c) * f == (c * f) * a) by (nonlinear_arith);
    assert((7 * (b * d)) * f == (7 * (d * f)) * b) by (nonlinear_arith);
    assert((a * d) * e == (d * e) * a) by (nonlinear_arith);
    assert((b * c) * e == (c * e) * b) by (nonlinear_arith);
}

proof fn lemma_two_terms(x: int, y: int, z: int)
    ensures
        (x + y) * z == x * z + y * z,
{
    lemma_mul_is_distributive_add_other_way(z, x, y);
}

pub proof fn lemma_fmul_assoc(x: Fe, y: Fe, z: Fe)
    ensures
        fmul(fmul(x, y), z) == fmul(x, fmul(y, z)),
{
    lemma_fmul_expand(x, y, z);
    lemma_fmul_expand(y, z, x);
    lemma_fmul_comm(x, fmul(y, z));
    let (a, b) = x;
    let (c, d) = y;
    let (e, f) = z;
    lemma_expand(a, b, c, d, e, f);
}

pub proof fn lemma_fmul_distr(x: Fe, y: Fe, z: Fe)
    ensures
        fmul(fadd(x, y), z) == fadd(fmul(x, z), fmul(y, z)),
        fmul(z, fadd(x, y)) == fadd(fmul(z, x), fmul(z, y)),
{
    reveal(fmul);
    reveal(fadd);
    let p = modulus();
    lemma_mod_lin2(x.0 + y.0, x.1 + y.1, z.0, 7 * z.1);
    lemma_mod_lin2(x.0 + y.0, x.1 + y.1, z.1, z.0);
    assert(((x.0 + y.0) % p) * z.0 + 7 * (((x.1 + y.1) % p) * z.1) == ((x.0 + y.0) % p) * z.0 + ((
    x.1 + y.1) % p) * (7 * z.1)) by (nonlinear_arith);
    assert((x.0 + y.0) * z.0 + (x.1 + y.1) * (7 * z.1) == (x.0 * z.0 + 7 * (x.1 * z.1)) + (y.0
        * z.0 + 7 * (y.1 * z.1))) by (nonlinear_arith);
    assert((x.0 + y.0) * z.1 + (x.1 + y.1) * z.0 == (x.0 * z.1 + x.1 * z.0) + (y.0 * z.1 + y.1
        * z.0)) by (nonlinear_arith);
    lemma_add_mod_noop(x.0 * z.0 + 7 * (x.1 * z.1), y.0 * z.0 + 7 * (y.1 * z.1), p);
    lemma_add_mod_noop(x.0 * z.1 + x.1 * z.0, y.0 * z.1 + y.1 * z.0, p);
    lemma_fmul_comm(fadd(x, y), z);
    lemma_fmul_comm(x, z);
    lemma_fmul_comm(y, z);
}

pub proof fn lemma_fmul_neg(x: Fe, y: Fe)
    ensures
        fmul(fneg(x), y) == fneg(fmul(x, y)),
        fmul(x, fneg(y)) == fneg(fmul(x, y)),
{
    lemma_fneg_unique(fmul(fneg(x), y), fmul(x, y));
    lemma_fmul_distr(x, fneg(x), y);
    lemma_fsub(x, x);
    lemma_fmul_zero(y);
    lemma_fe_closed(fneg(x), y);
    lemma_fe_closed(x, fneg(y));
    lemma_fadd_comm(fmul(x, y), fmul(fneg(x), y));
    lemma_fneg_unique(fmul(fneg(x), y), fmul(x, y));
    lemma_fmul_distr(y, fneg(y), x);
    lemma_fsub(y, y);
    lemma_fmul_zero(x);
    lemma_fadd_comm(fmul(x, y), fmul(x, fneg(y)));
    lemma_fneg_unique(fmul(x, fneg(y)), fmul(x, y));
}

proof fn lemma_fneg_unique(x: Fe, y: Fe)
    ensures
        is_fe(x) && fadd(x, y) == fzero() ==> x == fneg(y),
{
    reveal(fadd);
    reveal(fneg);
}

pub proof fn lemma_fmul_distr_sub(x: Fe, y: Fe, z: Fe)
    ensures
        fmul(fsub(x, y), z) == fsub(fmul(x, z), fmul(y, z)),
        fmul(z, fsub(x, y)) == fsub(fmul(z, x), fmul(z, y)),
{
    lemma_fsub(x, y);
    lemma_fmul_distr(x, fneg(y), z);
    lemma_fmul_neg(y, z);
    lemma_fmul_neg(z, y);
    lemma_fsub(fmul(x, z), fmul(y, z));
    lemma_fsub(fmul(z, x), fmul(z, y));
}

/// The embedding of the integers keeps sums, differences and products.
pub proof fn lemma_fint(a: int, b: int)
    ensures
        fadd(fint(a), fint(b)) == fint(a + b),
        fsub(fint(a), fint(b)) == fint(a - b),
        fmul(fint(a), fint(b)) == fint(a * b),
        fneg(fint(a)) == fint(-a),
        is_fe(fint(a)),
        fint(0) == fzero(),
        fint(1) == fone(),
{
    let p = modulus();
    assert(fadd(fint(a), fint(b)) == fint(a + b)) by {
        reveal(fadd);
        lemma_add_mod_noop(a, b, p);
    }
    assert(fsub(fint(a), fint(b)) == fint(a - b)) by {
        reveal(fsub);
        lemma_sub_mod_noop(a, b, p);
    }
    assert(fneg(fint(a)) == fint(-a)) by {
        reveal(fneg);
        lemma_sub_mod_noop_right(0, a, p);
    }
    assert(fmul(fint(a), fint(b)) == fint(a * b)) by {
        reveal(fmul);
        lemma_mul_mod_noop(a, b, p);
    }
}

// ---------------------------------------------------------------------------------------
// Inverses
// ---------------------------------------------------------------------------------------

/// An inverse is unique.
pub proof fn lemma_finv(x: Fe, y: Fe)
    requires
        is_fe(y),
        fmul(x, y) == fone(),
    ensures
        finvertible(x),
        finv(x) == y,
{
    let z = finv(x);
    assert(is_fe(z) && fmul(x, z) == fone());
    // y = y (x z) = (y x) z = z
    lemma_fmul_assoc(y, x, z);
    lemma_fmul_comm(y, x);
    lemma_fmul_one(y);
    lemma_fmul_one(z);
}

/// An invertible factor can be cancelled.
pub proof fn lemma_fmul_cancel(x: Fe, y: Fe, z: Fe)
    requires
        finvertible(x),
        is_fe(y),
        is_fe(z),
        fmul(x, y) == fmul(x, z),
    ensures
        y == z,
{
    let i = finv(x);
    lemma_fmul_comm(x, i);
    lemma_fmul_assoc(i, x, y);
    lemma_fmul_assoc(i, x, z);
    lemma_fmul_one(y);
    lemma_fmul_one(z);
}

/// The norm of an element, an element of the prime field.
pub open spec fn fnorm(x: Fe) -> int {
    (x.0 * x.0 - 7 * (x.1 * x.1)) % modulus()
}

proof fn lemma_norm_mul(x: Fe, y: Fe)
    ensures
        fnorm(fmul(x, y)) == (fnorm(x) * fnorm(y)) % modulus(),
{
    reveal(fmul);
    let p = modulus();
    let (a, b) = x;
    let (c, d) = y;
    let u = a * c + 7 * (b * d);
    let v = a * d + b * c;
    lemma_mul_mod_noop(u, u, p);
    lemma_mul_mod_noop(v, v, p);
    let uu = (u % p) * (u % p);
    let vv = (v % p) * (v % p);
    assert((uu - 7 * vv) % p == (u * u - 7 * (v * v)) % p);
    lemma_brahmagupta(a, b, c, d);
    lemma_mul_mod_noop(a * a - 7 * (b * b), c * c - 7 * (d * d), p);
}

proof fn lemma_brahmagupta(a: int, b: int, c: int, d: int)
    ensures
        (a * c + 7 * (b * d)) * (a * c + 7 * (b * d)) - 7 * ((a * d + b * c) * (a * d + b * c)) == (a
            * a - 7 * (b * b)) * (c * c - 7 * (d * d)),
{
    let x = a * c;
    let y = b * d;
    let z = a * d;
    let w = b * c;
    assert((x + 7 * y) * (x + 7 * y) == x * x + 14 * (x * y) + 49 * (y * y)) by (nonlinear_arith);
    assert((z + w) * (z + w) == z * z + 2 * (z * w) + w * w) by (nonlinear_arith);
    assert(x * y == z * w) by (nonlinear_arith)
        requires
            x == a * c,
            y == b * d,
            z == a * d,
            w == b * c,
    ;
    let e = a * a;
    let f = b * b;
    let g = c * c;
    let h = d * d;
    assert((e - 7 * f) * (g - 7 * h) == e * g - 7 * (e * h) - 7 * (f * g) + 49 * (f * h))
        by (nonlinear_arith);
    assert(x * x == e * g) by (nonlinear_arith)
        requires
            x == a * c,
            e == a * a,
            g == c * c,
    ;
    assert(y * y == f * h) by (nonlinear_arith)
        requires
            y == b * d,
            f == b * b,
            h == d * d,
    ;
    assert(z * z == e * h) by (nonlinear_arith)
        requires
            z == a * d,
            e == a * a,
            h == d * d,
    ;
    assert(w * w == f * g) by (nonlinear_arith)
        requires
            w == b * c,
            f == b * b,
            g == c * c,
    ;
}

/// An element is invertible exactly where its norm is invertible modulo the prime.
pub proof fn lemma_invertible_norm(x: Fe)
    ensures
        finvertible(x) ==> exists|k: int| #[trigger] (fnorm(x) * k) % modulus() == 1,
{
    if finvertible(x) {
        let y = finv(x);
        lemma_norm_mul(x, y);
        assert(fnorm(fone()) == 1);
        assert((fnorm(x) * fnorm(y)) % modulus() == 1);
    }
}

/// The conjugate times the inverse of the norm is the inverse.
pub proof fn lemma_inverse_from_norm(x: Fe, k: int)
    requires
        (fnorm(x) * k) % modulus() == 1,
    ensures
        fmul(x, ((x.0 * k) % modulus(), (-x.1 * k) % modulus())) == fone(),
{
    reveal(fmul);
    let p = modulus();
    let (a, b) = x;
    let u = (a * k) % p;
    let v = (-b * k) % p;
    lemma_mod_lin2(a * k, -b * k, a, 7 * b);
    lemma_mod_lin2(a * k, -b * k, b, a);
    assert(a * u + 7 * (b * v) == u * a + v * (7 * b)) by (nonlinear_arith);
    assert(a * v + b * u == u * b + v * a) by (nonlinear_arith);
    let n = a * a - 7 * (b * b);
    assert((a * k) * a + (-b * k) * (7 * b) == n * k) by (nonlinear_arith)
        requires
            n == a * a - 7 * (b * b),
    ;
    assert((a * k) * b + (-b * k) * a == 0) by (nonlinear_arith);
    lemma_mul_mod_noop_left(n, k, p);
}

// ---------------------------------------------------------------------------------------
// Sums and products
// ---------------------------------------------------------------------------------------

pub proof fn lemma_fsum_fe(n: nat, f: spec_fn(int) -> Fe)
    ensures
        is_fe(fsum(n, f)),
{
    if n > 0 {
        lemma_fe_closed(fsum((n - 1) as nat, f), f(n - 1));
    }
}

pub proof fn lemma_fprod_fe(n: nat, f: spec_fn(int) -> Fe)
    ensures
        is_fe(fprod(n, f)),
{
    if n > 0 {
        lemma_fe_closed(fprod((n - 1) as nat, f), f(n - 1));
    }
}

pub proof fn lemma_fpow_fe(x: Fe, n: nat)
    ensures
        is_fe(fpow(x, n)),
{
    if n > 0 {
        lemma_fe_closed(fpow(x, (n - 1) as nat), x);
    }
}

pub proof fn lemma_fsum_eq(n: nat, f: spec_fn(int) -> Fe, g: spec_fn(int) -> Fe)
    requires
        forall|i: int| 0 <= i < n ==> #[trigger] f(i) == g(i),
    ensures
        fsum(n, f) == fsum(n, g),
    decreases n,
{
    if n > 0 {
        lemma_fsum_eq((n - 1) as nat, f, g);
        assert(f(n - 1) == g(n - 1));
    }
}

pub proof fn lemma_fprod_eq(n: nat, f: spec_fn(int) -> Fe, g: spec_fn(int) -> Fe)
    requires
        forall|i: int| 0 <= i < n ==> #[trigger] f(i) == g(i),
    ensures
        fprod(n, f) == fprod(n, g),
    decreases n,
{
    if n > 0 {
        lemma_fprod_eq((n - 1) as nat, f, g);
        assert(f(n - 1) == g(n - 1));
    }
}

/// `(a + b) + (c + d) == (a + c) + (b + d)`.
pub proof fn lemma_fadd_swap(a: Fe, b: Fe, c: Fe, d: Fe)
    ensures
        fadd(fadd(a, b), fadd(c, d)) == fadd(fadd(a, c), fadd(b, d)),
{
    lemma_fadd_assoc(a, b, fadd(c, d));
    lemma_fadd_assoc(b, c, d);
    lemma_fadd_comm(b, c);
    lemma_fadd_assoc(c, b, d);
    lemma_fadd_assoc(a, c, fadd(b, d));
}

pub proof fn lemma_fsum_zero(n: nat, f: spec_fn(int) -> Fe)
    requires
        forall|i: int| 0 <= i < n ==> #[trigger] f(i) == fzero(),
    ensures
        fsum(n, f) == fzero(),
    decreases n,
{
    if n > 0 {
        lemma_fsum_zero((n - 1) as nat, f);
        assert(f(n - 1) == fzero());
        lemma_fadd_zero(fzero());
    }
}

pub proof fn lemma_fsum_add(n: nat, f: spec_fn(int) -> Fe, g: spec_fn(int) -> Fe)
    ensures
        fsum(n, |i: int| fadd(f(i), g(i))) == fadd(fsum(n, f), fsum(n, g)),
    decreases n,
{
    if n == 0 {
        lemma_fadd_zero(fzero());
    } else {
        let m = (n - 1) as nat;
        lemma_fsum_add(m, f, g);
        lemma_fadd_swap(fsum(m, f), fsum(m, g), f(n - 1), g(n - 1));
    }
}

pub proof fn lemma_fsum_scale(n: nat, c: Fe, f: spec_fn(int) -> Fe)
    ensures
        fsum(n, |i: int| fmul(c, f(i))) == fmul(c, fsum(n, f)),
    decreases n,
{
    if n == 0 {
        lemma_fmul_zero(c);
    } else {
        let m = (n - 1) as nat;
        lemma_fsum_scale(m, c, f);
        lemma_fmul_distr(fsum(m, f), f(n - 1), c);
    }
}

/// The order of two nested sums does not matter.
pub proof fn lemma_fsum_swap(n: nat, m: nat, f: spec_fn(int, int) -> Fe)
    ensures
        fsum(n, |i: int| fsum(m, |j: int| f(i, j))) == fsum(
            m,
            |j: int| fsum(n, |i: int| f(i, j)),
        ),
    decreases n,
{
    let rows = |i: int| fsum(m, |j: int| f(i, j));
    let cols = |j: int| fsum(n, |i: int| f(i, j));
    if n == 0 {
        lemma_fsum_zero(m, cols);
    } else {
        let k = (n - 1) as nat;
        lemma_fsum_swap(k, m, f);
        let colsk = |j: int| fsum(k, |i: int| f(i, j));
        let row = |j: int| f(n - 1, j);
        lemma_fsum_add(m, colsk, row);
        assert forall|j: int| 0 <= j < m implies #[trigger] cols(j) == (|j: int|
            fadd(colsk(j), row(j)))(j) by {
            let c = |i: int| f(i, j);
            assert(fsum(n, c) == fadd(fsum(k, c), c(n - 1)));
        }
        lemma_fsum_eq(m, cols, |j: int| fadd(colsk(j), row(j)));
        assert(fsum(n, rows) == fadd(fsum(k, rows), rows(n - 1)));
    }
}

pub proof fn lemma_fsum_split(n: nat, m: nat, f: spec_fn(int) -> Fe)
    ensures
        fsum(n + m, f) == fadd(fsum(n, f), fsum(m, |i: int| f(n + i))),
    decreases m,
{
    let g = |i: int| f(n + i);
    if m == 0 {
        lemma_fsum_fe(n, f);
        lemma_fadd_zero(fsum(n, f));
    } else {
        let k = (m - 1) as nat;
        lemma_fsum_split(n, k, f);
        assert(fsum(n + m, f) == fadd(fsum(n + k, f), f((n + k) as int)));
        lemma_fadd_assoc(fsum(n, f), fsum(k, g), g(k as int));
    }
}

/// Trailing zeros do not count.
pub proof fn lemma_fsum_truncate(n: nat, k: nat, f: spec_fn(int) -> Fe)
    requires
        k <= n,
        forall|i: int| k <= i < n ==> #[trigger] f(i) == fzero(),
    ensures
        fsum(n, f) == fsum(k, f),
    decreases n,
{
    if n > k {
        lemma_fsum_truncate((n - 1) as nat, k, f);
        assert(f(n - 1) == fzero());
        lemma_fsum_fe(k, f);
        lemma_fadd_zero(fsum(k, f));
    }
}

pub proof fn lemma_fprod_split(n: nat, m: nat, f: spec_fn(int) -> Fe)
    ensures
        fprod(n + m, f) == fmul(fprod(n, f), fprod(m, |i: int| f(n + i))),
    decreases m,
{
    let g = |i: int| f(n + i);
    if m == 0 {
        lemma_fprod_fe(n, f);
        lemma_fmul_one(fprod(n, f));
    } else {
        let k = (m - 1) as nat;
        lemma_fprod_split(n, k, f);
        assert(fprod(n + m, f) == fmul(fprod(n + k, f), f((n + k) as int)));
        lemma_fmul_assoc(fprod(n, f), fprod(k, g), g(k as int));
    }
}

/// A sum in which all terms but one vanish.
pub proof fn lemma_fsum_single(n: nat, k: int, f: spec_fn(int) -> Fe)
    requires
        0 <= k < n,
        forall|i: int| 0 <= i < n && i != k ==> #[trigger] f(i) == fzero(),
        is_fe(f(k)),
    ensures
        fsum(n, f) == f(k),
    decreases n,
{
    let m = (n - 1) as nat;
    if k == n - 1 {
        lemma_fsum_zero(m, f);
        lemma_fadd_zero(f(k));
    } else {
        lemma_fsum_single(m, k, f);
        assert(f(n - 1) == fzero());
        lemma_fadd_zero(f(k));
    }
}

pub proof fn lemma_fpow_add(x: Fe, a: nat, b: nat)
    ensures
        fpow(x, a + b) == fmul(fpow(x, a), fpow(x, b)),
    decreases b,
{
    if b == 0 {
        lemma_fpow_fe(x, a);
        lemma_fmul_one(fpow(x, a));
    } else {
        lemma_fpow_add(x, a, (b - 1) as nat);
        lemma_fmul_assoc(fpow(x, a), fpow(x, (b - 1) as nat), x);
    }
}

pub proof fn lemma_fpow_one(n: nat)
    ensures
        fpow(fone(), n) == fone(),
    decreases n,
{
    if n > 0 {
        lemma_fpow_one((n - 1) as nat);
        lemma_fmul_one(fone());
    }
}

pub proof fn lemma_fpow_mul_base(x: Fe, y: Fe, n: nat)
    ensures
        fpow(fmul(x, y), n) == fmul(fpow(x, n), fpow(y, n)),
    decreases n,
{
    if n == 0 {
        lemma_fmul_one(fone());
    } else {
        let m = (n - 1) as nat;
        lemma_fpow_mul_base(x, y, m);
        lemma_fmul_swap(fpow(x, m), fpow(y, m), x, y);
    }
}

/// `(a * b) * (c * d) == (a * c) * (b * d)`.
pub proof fn lemma_fmul_swap(a: Fe, b: Fe, c: Fe, d: Fe)
    ensures
        fmul(fmul(a, b), fmul(c, d)) == fmul(fmul(a, c), fmul(b, d)),
{
    lemma_fmul_assoc(a, b, fmul(c, d));
    lemma_fmul_assoc(b, c, d);
    lemma_fmul_comm(b, c);
    lemma_fmul_assoc(c, b, d);
    lemma_fmul_assoc(a, c, fmul(b, d));
}

pub proof fn lemma_fpow_mul(x: Fe, a: nat, b: nat)
    ensures
        fpow(x, a * b) == fpow(fpow(x, a), b),
    decreases b,
{
    if b == 0 {
        assert(a * 0 == 0);
    } else {
        lemma_fpow_mul(x, a, (b - 1) as nat);
        assert(a * b == a * (b - 1) + a) by (nonlinear_arith);
        lemma_fpow_add(x, a * ((b - 1) as nat), a);
    }
}

// ---------------------------------------------------------------------------------------
// Executable elements
// ---------------------------------------------------------------------------------------

/// An element of the quadratic extension. A coordinate may be any `u64`; it stands for its
/// remainder modulo the prime.
#[derive(Clone, Copy, Debug)]
pub struct GoldilocksExt2 {
    pub c0: u64,
    pub c1: u64,
}

impl View for GoldilocksExt2 {
    type V = Fe;

    open spec fn view(&self) -> Fe {
        (self.c0 as int % modulus(), self.c1 as int % modulus())
    }
}

/// The mathematical values of a sequence of elements.
pub open spec fn fviews(s: Seq<GoldilocksExt2>) -> Seq<Fe> {
    s.map_values(|x: GoldilocksExt2| x@)
}

/// The mathematical values of a sequence of rows.
pub open spec fn fviews2(s: Seq<Vec<GoldilocksExt2>>) -> Seq<Seq<Fe>> {
    s.map_values(|x: Vec<GoldilocksExt2>| fviews(x@))
}

pub proof fn lemma_fviews_push(s: Seq<GoldilocksExt2>, x: GoldilocksExt2)
    ensures
        fviews(s.push(x)) == fviews(s).push(x@),
{
    assert(fviews(s.push(x)) =~= fviews(s).push(x@));
}

pub proof fn lemma_fviews_fe(s: Seq<GoldilocksExt2>)
    ensures
        all_fe(fviews(s)),
{
}

/// The residue of `x` modulo the prime.
fn reduce(x: u128) -> (r: u64)
    ensures
        r as int == x as int % modulus(),
{
    (x % (MODULUS as u128)) as u64
}

/// The inverse of `n` modulo the prime, by the extended Euclidean algorithm.
fn inverse_mod(n: u64) -> (r: Option<u64>)
    requires
        n < MODULUS,
    ensures
        r matches Some(i) ==> (n * i) % modulus() == 1,
        r is None ==> forall|k: int| #[trigger] (n * k) % modulus() != 1,
{
    let mut r0: u64 = MODULUS;
    let mut r1: u64 = n;
    let mut s0: u64 = 0;
    let mut s1: u64 = 1;
    let ghost mut a: int = 1;
    let ghost mut b: int = 0;
    let ghost mut c: int = 0;
    let ghost mut d: int = 1;
    assert((0 * n) % modulus() == 0);
    while r1 != 0
        invariant
            n < MODULUS,
            s0 < MODULUS,
            s1 < MODULUS,
            r0 <= MODULUS,
            r1 <= MODULUS,
            r0 > 0,
            (s0 * n) % modulus() == r0 as int % modulus(),
            (s1 * n) % modulus() == r1 as int % modulus(),
            modulus() == a * r0 + b * r1,
            n == c * r0 + d * r1,
        decreases r1,
    {
        let q: u64 = r0 / r1;
        let r2: u64 = r0 % r1;
        let qs: u64 = {
            proof {
                assert(q * s1 <= u64::MAX * u64::MAX) by (nonlinear_arith)
                    requires
                        q <= u64::MAX,
                        s1 <= u64::MAX,
                ;
            }
            reduce((q as u128) * (s1 as u128))
        };
        let s2: u64 = reduce((s0 as u128) + (MODULUS as u128) - (qs as u128));
        proof {
            let p = modulus();
            lemma_fundamental_div_mod(r0 as int, r1 as int);
            assert(r0 == q * r1 + r2) by (nonlinear_arith)
                requires
                    r0 == r1 * q + r2,
            ;
            lemma_bezout_step(
                s0 as int,
                s1 as int,
                n as int,
                q as int,
                r0 as int,
                r1 as int,
                r2 as int,
                qs as int,
                s2 as int,
            );
            let (a2, b2, c2, d2) = (a * q + b, a, c * q + d, c);
            assert(a2 * r1 + b2 * r2 == a * r0 + b * r1) by (nonlinear_arith)
                requires
                    r0 == q * r1 + r2,
                    a2 == a * q + b,
                    b2 == a,
            ;
            assert(c2 * r1 + d2 * r2 == c * r0 + d * r1) by (nonlinear_arith)
                requires
                    r0 == q * r1 + r2,
                    c2 == c * q + d,
                    d2 == c,
            ;
            a = a2;
            b = b2;
            c = c2;
            d = d2;
        }
        r0 = r1;
        r1 = r2;
        s0 = s1;
        s1 = s2;
    }
    if r0 == 1 {
        proof {
            lemma_mul_is_commutative(n as int, s0 as int);
        }
        Some(s0)
    } else {
        proof {
            assert forall|k: int| #[trigger] (n * k) % modulus() != 1 by {
                if (n * k) % modulus() == 1 {
                    let p = modulus();
                    let q = (n * k) / p;
                    lemma_fundamental_div_mod(n * k, p);
                    // 1 = n k - p q = r0 (c k - a q)
                    let g = r0 as int;
                    assert(b * 0 == 0 && d * 0 == 0);
                    assert(n * k - p * q == g * (c * k - a * q)) by (nonlinear_arith)
                        requires
                            n == c * g,
                            p == a * g,
                    ;
                    let e = c * k - a * q;
                    assert(g * e == 1);
                    assert(g == 1) by (nonlinear_arith)
                        requires
                            g * e == 1,
                            g >= 1,
                    ;
                }
            }
        }
        None
    }
}

proof fn lemma_bezout_step(
    s0: int,
    s1: int,
    n: int,
    q: int,
    r0: int,
    r1: int,
    r2: int,
    qs: int,
    s2: int,
)
    requires
        (s0 * n) % modulus() == r0 % modulus(),
        (s1 * n) % modulus() == r1 % modulus(),
        r0 == q * r1 + r2,
        qs == (q * s1) % modulus(),
        s2 == (s0 + modulus() - qs) % modulus(),
    ensures
        (s2 * n) % modulus() == r2 % modulus(),
{
    let p = modulus();
    lemma_mul_mod_noop_left(s0 + p - qs, n, p);
    assert((s0 + p - qs) * n == s0 * n + p * n - qs * n) by (nonlinear_arith);
    lemma_mod_multiples_basic(n, p);
    assert(p * n == n * p) by (nonlinear_arith);
    lemma_mul_mod_noop_left(q * s1, n, p);
    assert((q * s1) * n == q * (s1 * n)) by (nonlinear_arith);
    lemma_mul_mod_noop_right(q, s1 * n, p);
    lemma_mul_mod_noop_right(q, r1, p);
    assert((qs * n) % p == (q * r1) % p);
    let x = s0 * n;
    let y = p * n;
    let z = qs * n;
    let w = q * r1;
    assert(x % p == r0 % p && y % p == 0 && z % p == w % p ==> (x + y - z) % p == (r0 - w) % p);
}

/// Reducing the four partial products before adding them changes nothing.
proof fn lemma_times(a: int, b: int, c: int, d: int)
    ensures
        ({
            let p = modulus();
            fmul((a % p, b % p), (c % p, d % p)) == (
                ((a * c) % p + 7 * ((b * d) % p)) % p,
                ((a * d) % p + (b * c) % p) % p,
            )
        }),
{
    let p = modulus();
    let (ar, br, cr, dr) = (a % p, b % p, c % p, d % p);
    reveal(fmul);
    lemma_mul_mod_noop(a, c, p);
    lemma_mul_mod_noop(b, d, p);
    lemma_mul_mod_noop(a, d, p);
    lemma_mul_mod_noop(b, c, p);
    lemma_linear(ar * cr, br * dr);
    lemma_linear(a * c, b * d);
    lemma_linear(ar * dr, br * cr);
    lemma_linear(a * d, b * c);
}

proof fn lemma_linear(x: int, y: int)
    ensures
        (x + 7 * y) % modulus() == (x % modulus() + 7 * (y % modulus())) % modulus(),
        (x + y) % modulus() == (x % modulus() + y % modulus()) % modulus(),
{
    let p = modulus();
    lemma_add_mod_noop(x, y, p);
    lemma_add_mod_noop(x, 7 * y, p);
    lemma_mul_mod_noop_right(7, y, p);
    lemma_add_mod_noop(x, 7 * (y % p), p);
    lemma_add_mod_noop(x % p, 7 * (y % p), p);
    lemma_mod_twice(x, p);
}

impl GoldilocksExt2 {
    pub fn zero() -> (r: Self)
        ensures
            r@ == fzero(),
    {
        GoldilocksExt2 { c0: 0, c1: 0 }
    }

    pub fn one() -> (r: Self)
        ensures
            r@ == fone(),
    {
        GoldilocksExt2 { c0: 1, c1: 0 }
    }

    /// The element of the prime field that stands for `n`.
    pub fn from_u64(n: u64) -> (r: Self)
        ensures
            r@ == fint(n as int),
    {
        GoldilocksExt2 { c0: reduce(n as u128), c1: 0 }
    }

    pub fn plus(self, other: Self) -> (r: Self)
        ensures
            r@ == fadd(self@, other@),
    {
        proof {
            reveal(fadd);
            let p = modulus();
            lemma_add_mod_noop(self.c0 as int, other.c0 as int, p);
            lemma_add_mod_noop(self.c1 as int, other.c1 as int, p);
        }
        GoldilocksExt2 {
            c0: reduce(self.c0 as u128 + other.c0 as u128),
            c1: reduce(self.c1 as u128 + other.c1 as u128),
        }
    }

    pub fn minus(self, other: Self) -> (r: Self)
        ensures
            r@ == fsub(self@, other@),
    {
        proof {
            reveal(fsub);
            let p = modulus();
            lemma_sub_mod_noop(self.c0 as int, other.c0 as int, p);
            lemma_sub_mod_noop(self.c1 as int, other.c1 as int, p);
            lemma_mod_multiples_vanish(2, self.c0 as int - other.c0 as int, p);
            lemma_mod_multiples_vanish(2, self.c1 as int - other.c1 as int, p);
        }
        GoldilocksExt2 {
            c0: reduce(self.c0 as u128 + 2 * (MODULUS as u128) - other.c0 as u128),
            c1: reduce(self.c1 as u128 + 2 * (MODULUS as u128) - other.c1 as u128),
        }
    }

    pub fn times(self, other: Self) -> (r: Self)
        ensures
            r@ == fmul(self@, other@),
    {
        let (a, b) = (self.c0, self.c1);
        let (c, d) = (other.c0, other.c1);
        proof {
            lemma_u64_product(a, c);
            lemma_u64_product(b, d);
            lemma_u64_product(a, d);
            lemma_u64_product(b, c);
        }
        let ac = reduce((a as u128) * (c as u128));
        let bd = reduce((b as u128) * (d as u128));
        let ad = reduce((a as u128) * (d as u128));
        let bc = reduce((b as u128) * (c as u128));
        proof {
            lemma_times(a as int, b as int, c as int, d as int);
        }
        GoldilocksExt2 {
            c0: reduce(ac as u128 + 7 * (bd as u128)),
            c1: reduce(ad as u128 + bc as u128),
        }
    }

    /// Equality of the field elements that two values stand for.
    pub fn same(&self, other: &Self) -> (b: bool)
        ensures
            b == (self@ == other@),
    {
        self.c0 % MODULUS == other.c0 % MODULUS && self.c1 % MODULUS == other.c1 % MODULUS
    }

    /// The multiplicative inverse, which every element but zero has.
    pub fn invert(self) -> (r: Option<Self>)
        ensures
            r is Some <==> self@ != fzero(),
            r is Some <==> finvertible(self@),
            r matches Some(i) ==> i@ == finv(self@) && fmul(self@, i@) == fone(),
    {
        let a: u64 = self.c0 % MODULUS;
        let b: u64 = self.c1 % MODULUS;
        proof {
            law_invertible(self@);
            lemma_u64_product(a, a);
            lemma_u64_product(b, b);
        }
        let aa = reduce((a as u128) * (a as u128));
        let bb = reduce((b as u128) * (b as u128));
        let n = reduce(aa as u128 + 7 * (MODULUS as u128) - 7 * (bb as u128));
        proof {
            lemma_norm_reduced(a as int, b as int);
        }
        match inverse_mod(n) {
            None => {
                proof {
                    lemma_invertible_norm(self@);
                }
                None
            },
            Some(k) => {
                proof {
                    lemma_u64_product(a, k);
                    lemma_u64_product((MODULUS - b) as u64, k);
                }
                let c0 = reduce((a as u128) * (k as u128));
                let c1 = reduce(((MODULUS - b) as u128) * (k as u128));
                let r = GoldilocksExt2 { c0, c1 };
                proof {
                    lemma_inverse_from_norm(self@, k as int);
                    lemma_conjugate(b as int, k as int);
                    lemma_finv(self@, r@);
                }
                Some(r)
            },
        }
    }
}

proof fn lemma_norm_reduced(a: int, b: int)
    ensures
        ((a * a) % modulus() + 7 * modulus() - 7 * ((b * b) % modulus())) % modulus() == (a * a - 7
            * (b * b)) % modulus(),
{
    let p = modulus();
    let (x, y) = (a * a, b * b);
    lemma_linear(x, -y);
    lemma_linear(x % p, -(y % p));
    lemma_sub_mod_noop_right(0, y, p);
    lemma_mod_twice(x, p);
    lemma_mod_multiples_vanish(7, x % p - 7 * (y % p), p);
}

proof fn lemma_conjugate(b: int, k: int)
    ensures
        ((modulus() - b) * k) % modulus() == (-b * k) % modulus(),
{
    let p = modulus();
    assert((p - b) * k == p * k + (-b * k)) by (nonlinear_arith);
    lemma_mod_multiples_vanish(k, -b * k, p);
}

proof fn lemma_u64_product(a: u64, b: u64)
    ensures
        0 <= a * b <= 0xFFFF_FFFF_FFFF_FFFF * 0xFFFF_FFFF_FFFF_FFFF,
{
    assert(0 <= a * b <= 0xFFFF_FFFF_FFFF_FFFF * 0xFFFF_FFFF_FFFF_FFFF) by (nonlinear_arith)
        requires
            0 <= a <= 0xFFFF_FFFF_FFFF_FFFF,
            0 <= b <= 0xFFFF_FFFF_FFFF_FFFF,
    ;
}

impl PartialEq for GoldilocksExt2 {
    fn eq(&self, other: &Self) -> (b: bool) {
        self.same(other)
    }
}

impl Eq for GoldilocksExt2 {

}

impl vstd::std_specs::cmp::PartialEqSpecImpl for GoldilocksExt2 {
    open spec fn obeys_eq_spec() -> bool {
        true
    }

    open spec fn eq_spec(&self, other: &Self) -> bool {
        self@ == other@
    }
}

} // verus!
