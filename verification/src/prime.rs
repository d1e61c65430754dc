//! The modulus of the field is a prime, and every element of the extension but zero has an inverse.
use crate::arith::{lemma_pow2_mono, lemma_pow2_step, lemma_pow2_zero};
use crate::fft::{ROOT_OF_UNITY, lemma_root_half};
use crate::field::{
    Fe, fint, finv, finvertible, fmul, fnorm, fone, fpow, fsub, fzero, is_fe, lemma_fadd_zero,
    lemma_fe_closed, lemma_fint, lemma_finv, lemma_fmul_assoc, lemma_fmul_cancel, lemma_fmul_comm,
    lemma_fmul_one, lemma_fmul_swap, lemma_fmul_zero, lemma_fpow_add, lemma_fpow_fe,
    lemma_fpow_mul, lemma_fpow_mul_base, lemma_fsub, lemma_inverse_from_norm, modulus,
};
use vstd::arithmetic::div_mod::*;
use vstd::arithmetic::mul::*;
use vstd::arithmetic::power::*;
use vstd::arithmetic::power2::*;
use vstd::prelude::*;

verus! {

// ---------------------------------------------------------------------------------------
// Divisors of the modulus
// ---------------------------------------------------------------------------------------

/// Powers in the field and powers of integers.
proof fn lemma_fpow_int(b: int, n: nat)
    ensures
        fpow(fint(b), n) == fint(pow(b, n)),
    decreases n,
{
    reveal(pow);
    lemma_fint(1, 1);
    if n > 0 {
        let m = (n - 1) as nat;
        lemma_fpow_int(b, m);
        lemma_fint(pow(b, m), b);
        lemma_mul_is_commutative(b, pow(b, m));
    }
}

/// A positive number is an odd number times a power of two.
proof fn lemma_odd_part(e: nat) -> (r: (nat, nat))
    requires
        e > 0,
    ensures
        e == pow2(r.0) * r.1,
        r.1 % 2 == 1,
    decreases e,
{
    lemma_pow2_zero();
    if e % 2 == 1 {
        assert(e == 1 * e);
        (0, e)
    } else {
        let (s, o) = lemma_odd_part(e / 2);
        lemma_pow2_step(s);
        assert(e == (2 * pow2(s)) * o) by (nonlinear_arith)
            requires
                e == 2 * (e / 2),
                e / 2 == pow2(s) * o,
        ;
        (s + 1, o)
    }
}

/// Numbers with remainder one have powers with remainder one.
proof fn lemma_pow_one_mod(x: int, n: nat, d: int)
    requires
        d > 1,
        x % d == 1,
    ensures
        pow(x, n) % d == 1,
{
    lemma_pow_mod_noop(x, n, d);
    lemma1_pow(n);
    lemma_small_mod(1, d as nat);
}

/// Odd powers of numbers with remainder minus one have remainder minus one.
proof fn lemma_pow_minus_one_mod(x: int, n: nat, d: int)
    requires
        d > 1,
        x % d == d - 1,
        n % 2 == 1,
    ensures
        pow(x, n) % d == d - 1,
{
    let h = (n / 2) as nat;
    // the square has remainder one
    lemma_mul_mod_noop(x, x, d);
    assert((d - 1) * (d - 1) == d * (d - 2) + 1) by (nonlinear_arith);
    lemma_mod_multiples_vanish(d - 2, 1, d);
    lemma_small_mod(1, d as nat);
    assert((x * x) % d == 1);
    lemma_pow1(x);
    lemma_pow_adds(x, 1, 1);
    assert(pow(x, 2) == x * x);
    lemma_pow_multiplies(x, 2, h);
    lemma_pow_one_mod(pow(x, 2), h, d);
    lemma_pow_adds(x, 2 * h, 1);
    lemma_mul_mod_noop(pow(x, 2 * h), x, d);
    assert(n == 2 * h + 1);
    lemma_small_mod((d - 1) as nat, d as nat);
}

/// A number whose power `2^31` has remainder minus one has no power below `2^32` with remainder
/// one.
proof fn lemma_order(g: int, d: int, e: nat)
    requires
        d > 2,
        pow(g, pow2(31)) % d == d - 1,
        0 < e < pow2(32),
    ensures
        pow(g, e) % d != 1,
{
    if pow(g, e) % d == 1 {
        let (s, o) = lemma_odd_part(e);
        lemma_pow2_pos(s);
        assert(s <= 31) by {
            if s >= 32 {
                lemma_pow2_mono(32, s);
                assert(pow2(s) * o >= pow2(s)) by (nonlinear_arith)
                    requires
                        o >= 1,
                        pow2(s) >= 0,
                ;
            }
        }
        let u = pow2((31 - s) as nat);
        lemma_pow2_adds(s, (31 - s) as nat);
        assert(e * u == pow2(31) * o) by (nonlinear_arith)
            requires
                e == pow2(s) * o,
                pow2(s) * u == pow2(31),
        ;
        lemma_pow_multiplies(g, e, u);
        lemma_pow_one_mod(pow(g, e), u, d);
        lemma_pow_multiplies(g, pow2(31), o);
        lemma_pow_minus_one_mod(pow(g, pow2(31)), o, d);
    }
}

/// The powers of the root of unity up to `2^32` have different remainders, none of them zero.
proof fn lemma_distinct(g: int, d: int, i: nat, j: nat)
    requires
        d > 2,
        pow(g, pow2(31)) % d == d - 1,
        i < j <= pow2(32),
        j == pow2(32) ==> i > 0,
    ensures
        pow(g, i) % d != pow(g, j) % d,
{
    let c = pow2(32);
    lemma_pow2_step(31);
    lemma_full_order(g, d);
    if pow(g, i) % d == pow(g, j) % d {
        let k = (c - i) as nat;
        let e = (j - i) as nat;
        lemma_pow_adds(g, i, k);
        lemma_pow_adds(g, j, k);
        lemma_pow_adds(g, c, e);
        assert(i + k == c && j + k == c + e);
        lemma_mul_mod_noop(pow(g, i), pow(g, k), d);
        lemma_mul_mod_noop(pow(g, j), pow(g, k), d);
        // so the power e has remainder one
        lemma_mul_mod_noop(pow(g, c), pow(g, e), d);
        lemma_mod_twice(pow(g, e), d);
        assert(pow(g, e) % d == 1);
        lemma_order(g, d, e);
    }
}

/// The power `2^32` has remainder one.
proof fn lemma_full_order(g: int, d: int)
    requires
        d > 2,
        pow(g, pow2(31)) % d == d - 1,
    ensures
        pow(g, pow2(32)) % d == 1,
{
    let h = pow2(31);
    lemma_pow2_step(31);
    lemma_pow_adds(g, h, h);
    lemma_mul_mod_noop(pow(g, h), pow(g, h), d);
    assert((d - 1) * (d - 1) == d * (d - 2) + 1) by (nonlinear_arith);
    lemma_mod_multiples_vanish(d - 2, 1, d);
    lemma_small_mod(1, d as nat);
}

/// Every divisor of the modulus but one is greater than `2^32`: the powers of the root of unity
/// have that many different remainders.
proof fn lemma_divisor_large(d: int)
    requires
        d > 1,
        modulus() % d == 0,
    ensures
        d > pow2(32),
{
    let p = modulus();
    let g = ROOT_OF_UNITY as int;
    let c = pow2(32);
    lemma2_to64();
    lemma2_to64_rest();
    // the power 2^31 has remainder minus one modulo the divisor too
    lemma_root_half();
    lemma_fpow_int(g, pow2(31));
    let x = pow(g, pow2(31));
    assert(x % p == (-1int) % p);
    assert((x + 1) % p == 0) by {
        lemma_add_mod_noop(x, 1, p);
        lemma_add_mod_noop(-1, 1, p);
    }
    lemma_fundamental_div_mod(x + 1, p);
    lemma_fundamental_div_mod(p, d);
    let q = p / d;
    let y = (x + 1) / p;
    assert(x + 1 == d * (q * y)) by (nonlinear_arith)
        requires
            x + 1 == p * y,
            p == d * q,
    ;
    assert(x % d == d - 1) by {
        let k = q * y;
        assert(x == d * (k - 1) + (d - 1)) by (nonlinear_arith)
            requires
                x + 1 == d * k,
        ;
        lemma_fundamental_div_mod_converse(x, d, k - 1, d - 1);
    }
    // the divisor is not two
    assert(d > 2) by {
        if d == 2 {
            assert(p % 2 == 1);
        }
    }
    let s = Seq::new(c, |i: int| pow(g, (i + 1) as nat) % d);
    assert(s.no_duplicates()) by {
        assert forall|i: int, j: int| 0 <= i < s.len() && 0 <= j < s.len() && i != j implies s[i]
            != s[j] by {
            if i < j {
                lemma_distinct(g, d, (i + 1) as nat, (j + 1) as nat);
            } else {
                lemma_distinct(g, d, (j + 1) as nat, (i + 1) as nat);
            }
        }
    }
    s.unique_seq_to_set();
    let r = vstd::set_lib::set_int_range(1, d);
    vstd::set_lib::lemma_int_range(1, d);
    assert(s.to_set().subset_of(r)) by {
        assert forall|v: int| s.to_set().contains(v) implies r.contains(v) by {
            let i = choose|i: int| 0 <= i < s.len() && s[i] == v;
            let n = (i + 1) as nat;
            lemma_mod_bound(pow(g, n), d);
            if v == 0 {
                // then the power 2^32 would have remainder zero
                lemma_full_order(g, d);
                let k = (c - n) as nat;
                lemma_pow_adds(g, n, k);
                lemma_mul_mod_noop(pow(g, n), pow(g, k), d);
                assert(0 * (pow(g, k) % d) == 0);
                lemma_small_mod(0, d as nat);
            }
        }
    }
    vstd::set_lib::lemma_len_subset(s.to_set(), r);
}

/// A common divisor of two numbers, as a combination of them.
proof fn lemma_bezout(a: int, b: int) -> (r: (int, int, int))
    requires
        a > 0,
        b >= 0,
    ensures
        r.0 > 0,
        a % r.0 == 0,
        b % r.0 == 0,
        r.0 == r.1 * a + r.2 * b,
    decreases b,
{
    if b == 0 {
        lemma_mod_self_0(a);
        lemma_small_mod(0, a as nat);
        assert(a == 1 * a + 0 * b);
        (a, 1, 0)
    } else {
        lemma_mod_bound(a, b);
        let (g, u, v) = lemma_bezout(b, a % b);
        lemma_fundamental_div_mod(a, b);
        let q = a / b;
        // g divides a = b q + a % b
        lemma_mul_mod_noop_left(b, q, g);
        assert(0 * q == 0);
        lemma_small_mod(0, g as nat);
        lemma_add_mod_noop(b * q, a % b, g);
        assert(g == v * a + (u - v * q) * b) by (nonlinear_arith)
            requires
                g == u * b + v * (a % b),
                a == b * q + a % b,
        ;
        (g, v, u - v * q)
    }
}

/// The modulus is a prime: every number below it but zero has an inverse.
pub proof fn lemma_inverse_exists(n: int) -> (k: int)
    requires
        0 < n < modulus(),
    ensures
        (n * k) % modulus() == 1,
{
    let p = modulus();
    let (g, u, v) = lemma_bezout(p, n);
    if g > 1 {
        lemma2_to64();
        lemma2_to64_rest();
        lemma_fundamental_div_mod(p, g);
        lemma_fundamental_div_mod(n, g);
        let h = p / g;
        let m = n / g;
        assert(g < p) by {
            assert(m >= 1) by (nonlinear_arith)
                requires
                    n == g * m,
                    n > 0,
                    g > 0,
            ;
            assert(g <= n) by (nonlinear_arith)
                requires
                    n == g * m,
                    m >= 1,
                    g > 0,
            ;
        }
        assert(h > 1) by (nonlinear_arith)
            requires
                p == g * h,
                0 < g < p,
        ;
        assert(p % h == 0) by {
            assert(p == h * g + 0) by (nonlinear_arith)
                requires
                    p == g * h,
            ;
            lemma_fundamental_div_mod_converse(p, h, g, 0);
        }
        lemma_divisor_large(g);
        lemma_divisor_large(h);
        let c = pow2(32) as int;
        assert(g * h >= c * c) by (nonlinear_arith)
            requires
                g >= c,
                h >= c,
                c >= 0,
        ;
        assert(c * c == 0x1_0000_0000_0000_0000) by (nonlinear_arith)
            requires
                c == 0x1_0000_0000,
        ;
    }
    // 1 = u p + v n
    assert(n * v == p * (-u) + 1) by (nonlinear_arith)
        requires
            1 == u * p + v * n,
    ;
    lemma_fundamental_div_mod_converse(n * v, p, -u, 1);
    v
}

// ---------------------------------------------------------------------------------------
// The little theorem of Fermat
// ---------------------------------------------------------------------------------------

/// Numbers that are not zero are invertible in the field.
proof fn lemma_int_invertible(n: int)
    requires
        0 < n < modulus(),
    ensures
        finvertible(fint(n)),
{
    let k = lemma_inverse_exists(n);
    lemma_fint(n, k);
    lemma_fint(n * k, 1);
    lemma_small_mod(1, modulus() as nat);
    assert(fint(n * k) == fone());
    lemma_fint(k, k);
    lemma_finv(fint(n), fint(k));
}

proof fn lemma_invertible_product(x: Fe, y: Fe)
    requires
        finvertible(x),
        finvertible(y),
    ensures
        finvertible(fmul(x, y)),
{
    let (i, j) = (finv(x), finv(y));
    lemma_fmul_swap(x, y, i, j);
    lemma_fmul_one(fone());
    lemma_fe_closed(i, j);
    lemma_finv(fmul(x, y), fmul(i, j));
}

/// The product of a sequence.
spec fn seq_product(s: Seq<Fe>) -> Fe {
    s.fold_left(fone(), |acc: Fe, x: Fe| fmul(acc, x))
}

proof fn lemma_seq_product_push(s: Seq<Fe>, x: Fe)
    ensures
        seq_product(s.push(x)) == fmul(seq_product(s), x),
{
    assert(s.push(x).drop_last() =~= s);
}

/// The numbers from one to `n`.
spec fn first_numbers(n: nat) -> Seq<Fe> {
    Seq::new(n, |i: int| fint(i + 1))
}

/// The numbers from one to `n`, each times `t`.
spec fn multiples(t: Fe, n: nat) -> Seq<Fe> {
    Seq::new(n, |i: int| fmul(t, fint(i + 1)))
}

proof fn lemma_products(t: Fe, n: nat)
    requires
        n < modulus(),
        is_fe(t),
    ensures
        seq_product(multiples(t, n)) == fmul(fpow(t, n), seq_product(first_numbers(n))),
        finvertible(seq_product(first_numbers(n))),
        is_fe(seq_product(first_numbers(n))),
    decreases n,
{
    if n == 0 {
        lemma_fmul_one(fone());
        lemma_finv(fone(), fone());
    } else {
        let m = (n - 1) as nat;
        lemma_products(t, m);
        assert(multiples(t, n) =~= multiples(t, m).push(fmul(t, fint(n as int))));
        assert(first_numbers(n) =~= first_numbers(m).push(fint(n as int)));
        lemma_seq_product_push(multiples(t, m), fmul(t, fint(n as int)));
        lemma_seq_product_push(first_numbers(m), fint(n as int));
        lemma_fmul_swap(
            fpow(t, m),
            seq_product(first_numbers(m)),
            t,
            fint(n as int),
        );
        lemma_int_invertible(n as int);
        lemma_invertible_product(seq_product(first_numbers(m)), fint(n as int));
        lemma_fe_closed(seq_product(first_numbers(m)), fint(n as int));
    }
}

/// The multiples of a number that is not zero are the same numbers in another order.
proof fn lemma_same_numbers(t: int)
    requires
        0 < t < modulus(),
    ensures
        multiples(fint(t), (modulus() - 1) as nat).to_multiset() == first_numbers(
            (modulus() - 1) as nat,
        ).to_multiset(),
{
    broadcast use vstd::seq_lib::group_to_multiset_ensures;

    let p = modulus();
    let n = (p - 1) as nat;
    let a = first_numbers(n);
    let b = multiples(fint(t), n);
    lemma_int_invertible(t);
    let k = lemma_inverse_exists(t);
    assert(a.no_duplicates()) by {
        assert forall|i: int, j: int| 0 <= i < n && 0 <= j < n && i != j implies a[i] != a[j] by {
            lemma_small_mod((i + 1) as nat, p as nat);
            lemma_small_mod((j + 1) as nat, p as nat);
        }
    }
    assert(b.no_duplicates()) by {
        assert forall|i: int, j: int| 0 <= i < n && 0 <= j < n && i != j implies b[i] != b[j] by {
            lemma_small_mod((i + 1) as nat, p as nat);
            lemma_small_mod((j + 1) as nat, p as nat);
            lemma_fint(i + 1, j + 1);
            lemma_fint(j + 1, i + 1);
            if b[i] == b[j] {
                lemma_fmul_cancel(fint(t), fint(i + 1), fint(j + 1));
            }
        }
    }
    assert forall|x: Fe| a.contains(x) <==> b.contains(x) by {
        if b.contains(x) {
            let i = choose|i: int| 0 <= i < n && b[i] == x;
            lemma_fint(t, i + 1);
            let m = (t * (i + 1)) % p;
            lemma_mod_bound(t * (i + 1), p);
            lemma_mod_twice(t * (i + 1), p);
            assert(x == fint(m));
            if m == 0 {
                // then the factor would be zero
                lemma_fint(0, 0);
                lemma_fmul_zero(fint(t));
                lemma_fint(i + 1, 0);
                lemma_fmul_cancel(fint(t), fint(i + 1), fzero());
                lemma_small_mod((i + 1) as nat, p as nat);
            }
            assert(a[m - 1] == x);
        }
        if a.contains(x) {
            let i = choose|i: int| 0 <= i < n && a[i] == x;
            // x = t (k x)
            let m = (k * (i + 1)) % p;
            lemma_mod_bound(k * (i + 1), p);
            lemma_fint(t, m);
            assert((t * m) % p == (i + 1) % p) by {
                lemma_mul_mod_noop_right(t, k * (i + 1), p);
                lemma_mul_is_associative(t, k, i + 1);
                lemma_mul_mod_noop_left(t * k, i + 1, p);
            }
            assert(fmul(fint(t), fint(m)) == x);
            if m == 0 {
                assert(t * 0 == 0);
                lemma_small_mod((i + 1) as nat, p as nat);
                lemma_small_mod(0, p as nat);
            }
            assert(b[m - 1] == x);
        }
    }
    a.lemma_multiset_has_no_duplicates();
    b.lemma_multiset_has_no_duplicates();
    let (ma, mb) = (a.to_multiset(), b.to_multiset());
    assert forall|x: Fe| ma.count(x) == mb.count(x) by {
        assert(a.contains(x) <==> b.contains(x));
        assert(a.contains(x) <==> ma.count(x) > 0);
        assert(b.contains(x) <==> mb.count(x) > 0);
    }
    assert(ma =~= mb);
}

/// Every number that is not zero has, to the power of the modulus less one, the value one.
pub proof fn lemma_fermat(t: int)
    requires
        0 < t < modulus(),
    ensures
        fpow(fint(t), (modulus() - 1) as nat) == fone(),
{
    let n = (modulus() - 1) as nat;
    let a = first_numbers(n);
    let b = multiples(fint(t), n);
    let f = |acc: Fe, x: Fe| fmul(acc, x);
    lemma_fint(t, t);
    lemma_products(fint(t), n);
    lemma_same_numbers(t);
    assert(vstd::seq_lib::commutative_foldl(f)) by {
        assert forall|x: Fe, y: Fe, v: Fe| #[trigger] f(f(v, x), y) == f(f(v, y), x) by {
            lemma_fmul_assoc(v, x, y);
            lemma_fmul_assoc(v, y, x);
            lemma_fmul_comm(x, y);
        }
    }
    vstd::seq_lib::lemma_fold_left_permutation(a, b, f, fone());
    let q = seq_product(a);
    let e = fpow(fint(t), n);
    lemma_fmul_comm(e, q);
    lemma_fmul_one(q);
    lemma_fpow_fe(fint(t), n);
    lemma_fmul_cancel(q, e, fone());
}

// ---------------------------------------------------------------------------------------
// Seven is not a square
// ---------------------------------------------------------------------------------------

proof fn lemma_seven_step(k: nat, a: int, s: int, b: int)
    requires
        k > 0,
        fpow(fint(7), (pow2(k) - 1) as nat) == fint(a),
        (a * a) % modulus() == s,
        (s * 7) % modulus() == b,
    ensures
        fpow(fint(7), (pow2(k + 1) - 1) as nat) == fint(b),
{
    let x = fint(7);
    let p = modulus();
    lemma_pow2_step(k);
    lemma_pow2_pos(k);
    let m = (pow2(k) - 1) as nat;
    lemma_fpow_add(x, m, m);
    lemma_fint(a, a);
    lemma_mod_twice(a * a, p);
    assert(fpow(x, m + m) == fint(s));
    lemma_fint(s, 7);
    lemma_mod_twice(s * 7, p);
    assert((pow2(k + 1) - 1) as nat == m + m + 1);
    assert(fpow(x, m + m + 1) == fmul(fpow(x, m + m), x));
}

/// Seven to the power `2^32 - 1` is the root of unity.
proof fn lemma_seven_root()
    ensures
        fpow(fint(7), (pow2(32) - 1) as nat) == fint(ROOT_OF_UNITY as int),
{
    let x = fint(7);
    lemma_pow2_zero();
    lemma_pow2_step(0);
    lemma_fint(7, 1);
    lemma_fmul_one(x);
    assert(fpow(x, 1) == fmul(fpow(x, 0), x));
    lemma_seven_step(1, 0x7, 0x31, 0x157);
    lemma_seven_step(2, 0x157, 0x1cb91, 0xc90f7);
    lemma_seven_step(3, 0xc90f7, 0x9de93ece51, 0x45160b7a437);
    lemma_seven_step(4, 0x45160b7a437, 0x15f486976fe5deed, 0x99afae240f49187b);
    lemma_seven_step(5, 0x99afae240f49187b, 0xcef10b6260328555, 0xa8974fb5a161a54e);
    lemma_seven_step(6, 0xa8974fb5a161a54e, 0xc4c00014d7ec8d18, 0x61400096e777dba3);
    lemma_seven_step(7, 0x61400096e777dba3, 0x101bd2d54c2bd003, 0x70c2c3d51532b015);
    lemma_seven_step(8, 0x70c2c3d51532b015, 0x977d266aaa5717a5, 0x246c0ceea861a57f);
    lemma_seven_step(9, 0x246c0ceea861a57f, 0x105cb5cf76ab9c8d, 0x7288f8ac3eb147db);
    lemma_seven_step(10, 0x7288f8ac3eb147db, 0xbde1e590c15c40e0, 0x312d46fa4985c61b);
    lemma_seven_step(11, 0x312d46fa4985c61b, 0xaa0a2564f61885e5, 0xa64705c6baaba93f);
    lemma_seven_step(12, 0xa64705c6baaba93f, 0x81a9b0c3bb9a860a, 0x8ba3d55d2139aa43);
    lemma_seven_step(13, 0x8ba3d55d2139aa43, 0x395c270eb466b17e, 0x91851167eeceda71);
    lemma_seven_step(14, 0x91851167eeceda71, 0x51597c883dd534b2, 0x397267bbb0d470dc);
    lemma_seven_step(15, 0x397267bbb0d470dc, 0x61335e3e6f4c6e61, 0xa86793b70b1704a5);
    lemma_seven_step(16, 0xa86793b70b1704a5, 0x893fa9923de9a55, 0x3c0bda2ffb163853);
    lemma_seven_step(17, 0x3c0bda2ffb163853, 0xb7445dc976cb1d27, 0x2de90873f8dcc0c);
    lemma_seven_step(18, 0x2de90873f8dcc0c, 0xcadaadb136aa04be, 0x8bfabfdd7ea6212d);
    lemma_seven_step(19, 0x8bfabfdd7ea6212d, 0x4cd26948362e58d4, 0x19c0e0fb7b446dca);
    lemma_seven_step(20, 0x19c0e0fb7b446dca, 0x33b0f0bf3ec91348, 0x69d6953bb77f86f7);
    lemma_seven_step(21, 0x69d6953bb77f86f7, 0xa1bb45ca531bd094, 0x6c1ee88c45c2b408);
    lemma_seven_step(22, 0x6c1ee88c45c2b408, 0xe7211eb6ce15fb79, 0x51e7d705a299e049);
    lemma_seven_step(23, 0x51e7d705a299e049, 0x7f6dc612d3e203eb, 0x7c006a86cb2e1b6a);
    lemma_seven_step(24, 0x7c006a86cb2e1b6a, 0xf5633488fbce8ee8, 0xb5b66fc4e2a5e852);
    lemma_seven_step(25, 0xb5b66fc4e2a5e852, 0x840165a70e500bd3, 0x9c09c794643052c2);
    lemma_seven_step(26, 0x9c09c794643052c2, 0xdf85101ed642f55f, 0x1ca370dddbd4b593);
    lemma_seven_step(27, 0x1ca370dddbd4b593, 0x3e79186b46adb029, 0xb54faaefeebfd11e);
    lemma_seven_step(28, 0xb54faaefeebfd11e, 0x20e5a89ec3581cf4, 0xe6479c575768caac);
    lemma_seven_step(29, 0xe6479c575768caac, 0xc2791e2e5c11c9fa, 0x514fd349847c85d1);
    lemma_seven_step(30, 0x514fd349847c85d1, 0x8cc254cdbafe60fe, 0xd95051a31cf4a6ef);
    lemma_seven_step(31, 0xd95051a31cf4a6ef, 0xdee7bcd58ce8135e, 0x185629dcda58878c);
}

/// No number has the square seven.
proof fn lemma_seven_no_square(t: int)
    requires
        0 < t < modulus(),
    ensures
        fmul(fint(t), fint(t)) != fint(7),
{
    let x = fint(t);
    if fmul(x, x) == fint(7) {
        lemma2_to64();
        lemma2_to64_rest();
        let a = (pow2(32) - 1) as nat;
        let h = pow2(31);
        lemma_fermat(t);
        // x to the power p - 1 is seven to half of that
        lemma_fpow_mul_base(x, x, a * h);
        lemma_fpow_add(x, a * h, a * h);
        assert(a * h + a * h == modulus() - 1) by (nonlinear_arith)
            requires
                a == 0xFFFF_FFFF,
                h == 0x8000_0000,
                modulus() == 0xFFFF_FFFF_0000_0001,
        ;
        lemma_fpow_mul(fint(7), a, h);
        lemma_seven_root();
        lemma_root_half();
        lemma_fint(1, -1);
        assert(fint(-1) == fone());
        assert((-1int) % modulus() == modulus() - 1);
    }
}

/// The norm of an element that is not zero is not zero.
proof fn lemma_norm_not_zero(x: Fe)
    requires
        is_fe(x),
        x != fzero(),
    ensures
        fnorm(x) != 0,
{
    let p = modulus();
    let (a, b) = x;
    if fnorm(x) == 0 {
        if b == 0 {
            let k = lemma_inverse_exists(a);
            assert(b * b == 0);
            lemma_mul_mod_noop_left(a * a, k * k, p);
            assert((a * a) * (k * k) == (a * k) * (a * k)) by (nonlinear_arith);
            lemma_mul_mod_noop(a * k, a * k, p);
            assert(0 * (k * k) == 0);
            lemma_small_mod(0, p as nat);
            lemma_small_mod(1, p as nat);
        } else {
            let k = lemma_inverse_exists(b);
            let t = (a * k) % p;
            lemma_mod_bound(a * k, p);
            // t^2 = a^2 k^2 = 7 b^2 k^2 = 7
            let kk = k * k;
            let n = a * a - 7 * (b * b);
            assert((a * k) * (a * k) == n * kk + 7 * ((b * k) * (b * k))) by (nonlinear_arith)
                requires
                    kk == k * k,
                    n == a * a - 7 * (b * b),
            ;
            lemma_mul_mod_noop_left(n, kk, p);
            assert(0 * kk == 0);
            lemma_small_mod(0, p as nat);
            let y = (b * k) * (b * k);
            lemma_mul_mod_noop(b * k, b * k, p);
            lemma_small_mod(1, p as nat);
            assert(y % p == 1);
            lemma_mul_mod_noop_right(7, y, p);
            lemma_small_mod(7, p as nat);
            lemma_add_mod_noop(n * kk, 7 * y, p);
            assert(((a * k) * (a * k)) % p == 7);
            lemma_mul_mod_noop(a * k, a * k, p);
            lemma_fint(t, t);
            assert(fmul(fint(t), fint(t)) == fint(7));
            if t == 0 {
                assert(0int * 0int == 0);
            }
            lemma_seven_no_square(t);
        }
    }
}

/// Every element but zero has an inverse.
pub proof fn law_invertible(x: Fe)
    requires
        is_fe(x),
    ensures
        finvertible(x) <==> x != fzero(),
{
    if x != fzero() {
        let p = modulus();
        lemma_norm_not_zero(x);
        lemma_mod_bound(x.0 * x.0 - 7 * (x.1 * x.1), p);
        let k = lemma_inverse_exists(fnorm(x));
        let y = ((x.0 * k) % p, (-x.1 * k) % p);
        lemma_inverse_from_norm(x, k);
        lemma_mod_bound(x.0 * k, p);
        lemma_mod_bound(-x.1 * k, p);
        lemma_finv(x, y);
    } else {
        assert forall|y: Fe| is_fe(y) implies #[trigger] fmul(x, y) != fone() by {
            lemma_fmul_zero(y);
        }
    }
}

/// One minus an element has an inverse unless the element is one.
pub proof fn lemma_one_minus_invertible(x: Fe)
    requires
        is_fe(x),
    ensures
        finvertible(fsub(fone(), x)) <==> x != fone(),
{
    let y = fsub(fone(), x);
    lemma_fe_closed(fone(), x);
    law_invertible(y);
    lemma_fsub(fone(), x);
    lemma_fsub(fone(), fone());
    // x is one where the difference is zero
    lemma_fadd_zero(x);
}

} // verus!
