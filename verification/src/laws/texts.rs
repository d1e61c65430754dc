//! What texts stand for.
use crate::arith::{lemma_pow2_step, lemma_pow2_zero};
use crate::bench::{
    Number, Samples, digits_of, first_rows, lemma_number_ends, number, picked, trimmed,
    trimmed_end, trimmed_start, white_space,
};
use crate::quantization::Element;
use crate::sums::isum;
use crate::text::decimal;
use crate::vector::bit_value;
use vstd::arithmetic::div_mod::*;
use vstd::arithmetic::mul::*;
use vstd::arithmetic::power::*;
use vstd::arithmetic::power2::*;
use vstd::prelude::*;

verus! {

/// Every character is a decimal digit.
pub open spec fn all_digits(s: Seq<char>) -> bool {
    forall|i: int| 0 <= i < s.len() ==> '0' <= #[trigger] s[i] <= '9'
}

/// The value of a sequence of decimal digits: each counts ten times as much as the one behind it.
pub open spec fn place_value(s: Seq<char>) -> int {
    isum(s.len(), |i: int| (s[i] as int - 48) * pow(10, (s.len() - 1 - i) as nat))
}

pub proof fn lemma_isum_scale(n: nat, c: int, f: spec_fn(int) -> int, g: spec_fn(int) -> int)
    requires
        forall|i: int| 0 <= i < n ==> #[trigger] f(i) == c * g(i),
    ensures
        isum(n, f) == c * isum(n, g),
    decreases n,
{
    if n > 0 {
        lemma_isum_scale((n - 1) as nat, c, f, g);
        assert(f(n - 1) == c * g(n - 1));
        lemma_mul_is_distributive_add(c, isum((n - 1) as nat, g), g(n - 1));
    }
}

proof fn lemma_place_value(s: Seq<char>)
    requires
        s.len() > 0,
        all_digits(s),
    ensures
        place_value(s) == 10 * place_value(s.drop_last()) + (s.last() as int - 48),
        place_value(s) >= 0,
        place_value(s.drop_last()) >= 0,
        all_digits(s.drop_last()),
    decreases s.len(),
{
    let n = (s.len() - 1) as nat;
    let t = s.drop_last();
    let f = |i: int| (s[i] as int - 48) * pow(10, (s.len() - 1 - i) as nat);
    let g = |i: int| (t[i] as int - 48) * pow(10, (t.len() - 1 - i) as nat);
    assert forall|i: int| 0 <= i < n implies #[trigger] f(i) == 10 * g(i) by {
        let e = (n - 1 - i) as nat;
        lemma_pow_adds(10, e, 1);
        lemma_pow1(10);
        let a = s[i] as int - 48;
        let p = pow(10, e);
        assert(a * (p * 10) == 10 * (a * p)) by (nonlinear_arith);
    }
    lemma_isum_scale(n, 10, f, g);
    lemma_pow0(10);
    assert(f(n as int) == s.last() as int - 48);
    assert forall|i: int| 0 <= i < t.len() implies '0' <= #[trigger] t[i] <= '9' by {
        assert('0' <= s[i] <= '9');
    }
    assert('0' <= s[n as int] <= '9');
    if t.len() > 0 {
        lemma_place_value(t);
    }
}

/// A sequence of digits is read as the number that it stands for, unless that is too large.
pub proof fn law_number(s: Seq<char>)
    ensures
        all_digits(s) && place_value(s) <= usize::MAX ==> number(s) == Number::Value(
            place_value(s) as nat,
        ) && place_value(s) >= 0,
        all_digits(s) && place_value(s) > usize::MAX ==> number(s) is TooLarge,
        number(s) is Value ==> all_digits(s),
        number(s) is Invalid ==> !all_digits(s),
    decreases s.len(),
{
    if s.len() > 0 {
        let t = s.drop_last();
        law_number(t);
        if all_digits(s) {
            lemma_place_value(s);
            assert('0' <= s[s.len() - 1] <= '9');
        }
        if number(s) is Value {
            assert forall|i: int| 0 <= i < s.len() implies '0' <= #[trigger] s[i] <= '9' by {
                if i < t.len() {
                    assert('0' <= t[i] <= '9');
                }
            }
        }
    }
}

/// A character that is no digit, behind digits that do not stand for too large a number, makes a
/// text invalid.
pub proof fn law_number_invalid(s: Seq<char>, k: int)
    requires
        0 <= k < s.len(),
        all_digits(s.take(k)),
        place_value(s.take(k)) <= usize::MAX,
        !('0' <= s[k] <= '9'),
    ensures
        number(s) is Invalid,
{
    law_number(s.take(k));
    assert(s.take(k + 1).drop_last() =~= s.take(k));
    lemma_number_ends(s, k + 1);
}

/// The decimal notation of a number consists of digits, stands for the number, and starts with
/// zero for zero alone.
pub proof fn law_decimal(n: nat)
    ensures
        decimal(n).len() >= 1,
        all_digits(decimal(n)),
        place_value(decimal(n)) == n,
        n > 0 ==> decimal(n)[0] != '0',
        n == 0 ==> decimal(n) == seq!['0'],
    decreases n,
{
    let s = decimal(n);
    if n < 10 {
        reveal_with_fuel(isum, 2);
        lemma_pow0(10);
        let f = |i: int| (s[i] as int - 48) * pow(10, (s.len() - 1 - i) as nat);
        assert(f(0) == s[0] as int - 48);
    } else {
        law_decimal(n / 10);
        let t = decimal(n / 10);
        assert(s.drop_last() =~= t);
        assert forall|i: int| 0 <= i < s.len() implies '0' <= #[trigger] s[i] <= '9' by {
            if i < t.len() {
                assert('0' <= t[i] <= '9');
            }
        }
        lemma_place_value(s);
    }
}

/// Reading the decimal notation of a number gives the number.
pub proof fn law_decimal_read(n: usize)
    ensures
        number(digits_of(trimmed(decimal(n as nat)))) == Number::Value(n as nat),
        number(digits_of(trimmed(seq!['+'] + decimal(n as nat)))) == Number::Value(n as nat),
{
    let d = decimal(n as nat);
    law_decimal(n as nat);
    law_number(d);
    assert('0' <= d[0] <= '9');
    assert('0' <= d[d.len() - 1] <= '9');
    assert(trimmed(d) == d);
    let p = seq!['+'] + d;
    assert(p.last() == d.last());
    assert(trimmed(p) == p);
    assert(p.skip(1) =~= d);
}

/// Trimming cuts white space off the two ends of a text, and leaves none there.
pub proof fn law_trimmed(s: Seq<char>) -> (cut: (Seq<char>, Seq<char>))
    ensures
        s == cut.0 + trimmed(s) + cut.1,
        forall|i: int| 0 <= i < cut.0.len() ==> white_space(#[trigger] cut.0[i]),
        forall|i: int| 0 <= i < cut.1.len() ==> white_space(#[trigger] cut.1[i]),
        trimmed(s).len() > 0 ==> !white_space(trimmed(s)[0]) && !white_space(trimmed(s).last()),
{
    let b = lemma_trimmed_end(s);
    let t = trimmed_end(s);
    let a = lemma_trimmed_start(t);
    let m = trimmed(s);
    if m.len() > 0 {
        assert(t.last() == m.last());
    }
    assert(s =~= a + m + b);
    (a, b)
}

proof fn lemma_trimmed_end(s: Seq<char>) -> (cut: Seq<char>)
    ensures
        s == trimmed_end(s) + cut,
        forall|i: int| 0 <= i < cut.len() ==> white_space(#[trigger] cut[i]),
        trimmed_end(s).len() > 0 ==> !white_space(trimmed_end(s).last()),
    decreases s.len(),
{
    if s.len() > 0 && white_space(s.last()) {
        let c = lemma_trimmed_end(s.drop_last());
        let r = c.push(s.last());
        assert(trimmed_end(s) == trimmed_end(s.drop_last()));
        let t = trimmed_end(s);
        assert(s.drop_last() == t + c);
        assert(s =~= s.drop_last().push(s.last()));
        assert((t + c).push(s.last()) =~= t + r);
        r
    } else {
        assert(s =~= s + Seq::<char>::empty());
        Seq::empty()
    }
}

proof fn lemma_trimmed_start(s: Seq<char>) -> (cut: Seq<char>)
    ensures
        s == cut + trimmed_start(s),
        forall|i: int| 0 <= i < cut.len() ==> white_space(#[trigger] cut[i]),
        trimmed_start(s).len() > 0 ==> !white_space(trimmed_start(s)[0]),
    decreases s.len(),
{
    if s.len() > 0 && white_space(s[0]) {
        let c = lemma_trimmed_start(s.skip(1));
        let r = seq![s[0]] + c;
        assert(trimmed_start(s) == trimmed_start(s.skip(1)));
        let t = trimmed_start(s);
        assert(s.skip(1) == c + t);
        assert(s =~= seq![s[0]] + s.skip(1));
        assert(seq![s[0]] + (c + t) =~= r + t);
        r
    } else {
        assert(s =~= Seq::<char>::empty() + s);
        Seq::empty()
    }
}

/// Of the samples that are picked, sample `i` is the one with the place `indices[i]`; the samples
/// that are kept are the first ones, each in its place.
pub proof fn law_samples<T>(s: Seq<Seq<T>>, indices: Seq<usize>, n: nat, i: int)
    ensures
        picked(s, indices).len() == indices.len(),
        0 <= i < indices.len() ==> picked(s, indices)[i] == s[indices[i] as int],
        first_rows(s, n).len() == if n <= s.len() {
            n
        } else {
            s.len()
        },
        0 <= i < n && i < s.len() ==> first_rows(s, n)[i] == s[i],
{
}

/// The bits of a number, each counted twice as much as the one before, add up to the number.
pub proof fn law_bits(num: nat, n: nat)
    ensures
        isum(n, |i: int| bit_value(num, i as nat) * pow2(i as nat)) == num % pow2(n),
        forall|i: nat| #[trigger] bit_value(num, i) == 0 || bit_value(num, i) == 1,
    decreases n,
{
    let f = |i: int| bit_value(num, i as nat) * pow2(i as nat);
    lemma_pow2_zero();
    if n > 0 {
        let m = (n - 1) as nat;
        law_bits(num, m);
        lemma_pow2_step(m);
        let p = pow2(m) as int;
        let x = num as int;
        lemma_mod_breakdown(x, p, 2);
        lemma_mul_is_commutative(p, 2);
        assert(x % (p * 2) == p * ((x / p) % 2) + x % p);
        lemma_mul_is_commutative(p, (x / p) % 2);
        assert(f(m as int) == bit_value(num, m) * p);
    }
}

/// The characters that count as white space.
pub proof fn law_white_space(c: char)
    ensures
        white_space(c) <==> {
            ||| c == '\t' || c == '\n' || c == '\u{b}' || c == '\u{c}' || c == '\r' || c == ' '
            ||| c == '\u{85}' || c == '\u{a0}' || c == '\u{1680}'
            ||| '\u{2000}' <= c <= '\u{200a}'
            ||| c == '\u{2028}' || c == '\u{2029}' || c == '\u{202f}' || c == '\u{205f}'
            ||| c == '\u{3000}'
        },
{
}

/// Samples are even where there are as many outputs of either kind as inputs; places are in range
/// where each is below that number.
pub proof fn law_even(s: Samples<Element>, indices: Seq<usize>)
    ensures
        s.even() <==> s.output_data@.len() == s.input_data@.len() && s.pytorch_output@.len()
            == s.input_data@.len(),
        s.in_range(indices) <==> forall|i: int|
            0 <= i < indices.len() ==> #[trigger] indices[i] < s.input_data@.len(),
{
}

} // verus!
