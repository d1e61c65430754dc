//! Requantisation: bringing the results of a layer back into the range of quantised values, by a
//! multiplication in fixed point and a shift, in a form that lookups can prove.
use crate::arith::{ceil_log2, clog2, lemma_pow2_mono, lemma_pow2_step, lemma_pow2_zero};
use crate::claim::Claim;
use crate::field::{
    Fe, GoldilocksExt2, all_fe, fadd, fint, finv, fmul, fone, fsub, fsum, fviews, fviews2, fzero,
    is_fe, lemma_fadd_comm, lemma_fadd_zero, lemma_fe_closed, lemma_fint, lemma_fmul_assoc,
    lemma_fmul_comm, lemma_fmul_neg, lemma_fmul_one, lemma_fsub, lemma_fsum_eq,
};
use crate::layers::provable::NodeId;
use crate::layers::provable::error::{ProvableOpError, parameter_err, parameter_error};
use crate::lookup::context::{COLUMN_SEPARATOR, TableType};
use crate::lookup::witness::{
    LogUpWitness, LookupWitnessGen, extended, lemma_table_place, lookups_view, table_place,
};
use crate::mle::{lemma_mle_constant, lemma_mle_eq, lemma_mle_linear, mle};
use crate::ops::lemma_flat;
use crate::prime::law_invertible;
use crate::quantization::{
    BIT_LEN, Element, MAX, MIN, clamp, clamped, fints, fits, law_clamped_idempotent,
    lemma_pow2_127, low_bits, power_of_two, shift_right, to_field,
};
use crate::sums::{isum, lemma_fint_isum};
use crate::tensor::{Tensor, TensorView, tensor};
use crate::text::joined;
use vstd::arithmetic::div_mod::*;
use vstd::arithmetic::mul::*;
use vstd::arithmetic::power2::*;
use vstd::prelude::*;
use vstd::slice::slice_to_vec;

verus! {

/// The least scale of the fixed point multiplier.
pub const FIXED_POINT_SCALE: usize = 25;

/// How a layer's results are scaled.
///
/// A value is multiplied by `fixed_point_multiplier` and shifted right by `fp_scale + right_shift`
/// bits, rounding to the nearest, and then brought into range.
#[derive(Clone, Copy, Debug, PartialEq, Eq, PartialOrd, Structural)]
pub struct Requant {
    /// The bits by which a value is shifted besides the scale of the multiplier.
    pub right_shift: usize,
    /// The normalised scaling factor as a fixed point multiplier.
    pub fixed_point_multiplier: Element,
    /// The scale of the multiplier: the least, from `FIXED_POINT_SCALE` on, such that the shift is
    /// a multiple of the number of bits of a quantised value.
    pub fp_scale: usize,
    /// The number of bits that a value may have before it is requantised.
    pub intermediate_bit_size: usize,
}

/// What the lookup protocol needs of a requantisation.
#[derive(Clone, Debug)]
pub struct RequantCtx {
    pub requant: Requant,
    pub node_id: NodeId,
    pub num_vars: usize,
}

/// The columns that a requantisation looks up, as elements of the field, and merged into one value
/// for each lookup.
#[derive(Clone, Debug)]
pub struct RequantColumns {
    /// The values before and after they are brought into range.
    pub clamping: Vec<Vec<GoldilocksExt2>>,
    /// The bits that are shifted away, in chunks.
    pub shifted: Vec<Vec<GoldilocksExt2>>,
    pub merged_clamping: Vec<Element>,
    pub merged_shifted: Vec<Element>,
}

/// What the prover has at the end of a requantisation.
#[derive(Clone, Debug)]
pub struct RequantOutcome {
    /// The values of the input column, of the output column and of the chunks, at the point of
    /// the sum-check.
    pub accumulation_evals: Vec<GoldilocksExt2>,
    /// A claim for each commitment: input column, output column, chunks.
    pub witness_claims: Vec<Claim<GoldilocksExt2>>,
    /// The claim about the input of the requantisation.
    pub next_claim: Claim<GoldilocksExt2>,
}

impl Requant {
    pub open spec fn total_shift(self) -> nat {
        (self.fp_scale + self.right_shift) as nat
    }

    /// The value multiplied, with half a unit added for rounding.
    pub open spec fn scaled(self, v: int) -> int {
        v * self.fixed_point_multiplier + pow2((self.total_shift() - 1) as nat)
    }

    /// The value after the shift.
    pub open spec fn rounded(self, v: int) -> int {
        self.scaled(v) / (pow2(self.total_shift()) as int)
    }

    /// The bits that the shift drops.
    pub open spec fn dropped(self, v: int) -> int {
        self.scaled(v) % (pow2(self.total_shift()) as int)
    }

    /// Chunk `j` of the bits that the shift drops.
    pub open spec fn chunk(self, v: int, j: nat) -> int {
        chunk_of(self.dropped(v), j)
    }

    /// The requantised value.
    pub open spec fn applied(self, v: int) -> int {
        clamped(self.rounded(v))
    }

    /// The number of bits of the multiplier.
    pub open spec fn multiplier_bits(self) -> nat {
        clog2((self.fixed_point_multiplier as usize) as nat)
    }

    /// The number of bits of the values that the clamping table takes.
    pub open spec fn clamping_bits(self) -> int {
        self.intermediate_bit_size + self.multiplier_bits() - self.total_shift()
    }

    /// The size of the clamping table can be told.
    pub open spec fn clamping_ok(self) -> bool {
        &&& (self.fixed_point_multiplier as usize) > 0
        &&& self.total_shift() <= usize::MAX
        &&& self.intermediate_bit_size + self.multiplier_bits() <= usize::MAX
        &&& self.clamping_bits() >= 0
    }

    pub open spec fn num_chunks(self) -> nat {
        self.total_shift() / 8
    }

    /// What is added up for `v` can be held.
    pub open spec fn holds(self, v: int) -> bool {
        &&& fits(v * self.fixed_point_multiplier)
        &&& fits(self.scaled(v))
    }

    /// The value that the claims about the columns add up to: the claim about the value before it
    /// is brought into range, shifted up, plus the chunks, each at its place, minus the half unit,
    /// divided by the multiplier.
    pub open spec fn recombined(self, clamping_claim: Fe, shifted_claims: Seq<Fe>) -> Fe {
        fmul(
            fsub(
                fadd(
                    fmul(fint(pow2(self.total_shift()) as int), clamping_claim),
                    chunk_sum(shifted_claims),
                ),
                fint(pow2((self.total_shift() - 1) as nat) as int),
            ),
            finv(fint(self.fixed_point_multiplier as int)),
        )
    }
}

/// Chunk `j` of the bits of `x`.
pub open spec fn chunk_of(x: int, j: nat) -> int {
    (x / (pow2(8 * j) as int)) % 256
}

/// The chunks added up, each at its place.
pub open spec fn chunk_sum(claims: Seq<Fe>) -> Fe {
    fsum(claims.len(), |j: int| fmul(claims[j], fint(pow2(8 * (j as nat)) as int)))
}

/// The columns of a requantisation of `data`.
pub open spec fn requant_columns(r: Requant, data: Seq<Element>, c: RequantColumns) -> bool {
    let n = data.len();
    &&& fviews2(c.clamping@) == seq![
        Seq::new(n, |i: int| fint(r.rounded(data[i] as int))),
        Seq::new(n, |i: int| fint(r.applied(data[i] as int))),
    ]
    &&& fviews2(c.shifted@) == Seq::new(
        r.num_chunks(),
        |j: int| Seq::new(n, |i: int| fint(r.chunk(data[i] as int, j as nat))),
    )
    &&& c.merged_clamping@.len() == n
    &&& forall|i: int|
        0 <= i < n ==> #[trigger] c.merged_clamping@[i] == r.rounded(data[i] as int) + r.applied(
            data[i] as int,
        ) * COLUMN_SEPARATOR
    &&& c.merged_shifted@.len() == r.num_chunks() * n
    &&& forall|j: int, i: int|
        0 <= j < r.num_chunks() && 0 <= i < n ==> #[trigger] c.merged_shifted@[j * n + i]
            == r.chunk(data[i] as int, j as nat)
}

/// The images of what the columns of a requantisation hold of one value.
pub open spec fn chunk_images(r: Requant, v: int) -> Seq<Fe> {
    Seq::new(r.num_chunks(), |j: int| fint(r.chunk(v, j as nat)))
}

// ---------------------------------------------------------------------------------------
// Laws
// ---------------------------------------------------------------------------------------

/// The lowest `8 k` bits of a number are the sum of its first `k` chunks, each at its place.
pub proof fn lemma_chunks(x: int, k: nat)
    requires
        x >= 0,
    ensures
        isum(k, |j: int| chunk_of(x, j as nat) * pow2(8 * (j as nat))) == x % (pow2(8 * k) as int),
    decreases k,
{
    let f = |j: int| chunk_of(x, j as nat) * pow2(8 * (j as nat));
    lemma_pow2_zero();
    if k == 0 {
        assert(x % 1 == 0);
    } else {
        let m = (k - 1) as nat;
        lemma_chunks(x, m);
        let p = pow2(8 * m) as int;
        lemma_pow2_adds(8 * m, 8);
        lemma2_to64();
        lemma_pow2_pos(8 * m);
        assert(pow2(8 * k) == p * 256);
        // x mod (p 256) = p ((x / p) mod 256) + x mod p
        lemma_mod_breakdown(x, p, 256);
        assert(f(k - 1) == chunk_of(x, m) * p);
        lemma_mul_is_commutative(chunk_of(x, m), p);
    }
}

/// From the value after the shift and the chunks of the dropped bits the value before the
/// requantisation is recovered, in the field.
pub proof fn law_recombine_value(r: Requant, v: int)
    requires
        r.total_shift() >= 1,
        r.total_shift() % 8 == 0,
        fint(r.fixed_point_multiplier as int) != fzero(),
    ensures
        r.recombined(fint(r.rounded(v)), chunk_images(r, v)) == fint(v),
{
    let s = r.total_shift();
    let p = pow2(s) as int;
    let h = pow2((s - 1) as nat) as int;
    let t = r.scaled(v);
    let d = r.dropped(v);
    let m = r.fixed_point_multiplier as int;
    lemma_pow2_pos(s);
    lemma_mod_bound(t, p);
    lemma_chunks(d, r.num_chunks());
    lemma_fundamental_div_mod(s as int, 8);
    lemma_small_mod(d as nat, p as nat);
    // the chunks add up to the dropped bits
    let f = |j: int| chunk_of(d, j as nat) * pow2(8 * (j as nat));
    let images = chunk_images(r, v);
    let g = |j: int| fmul(images[j], fint(pow2(8 * (j as nat)) as int));
    assert forall|j: int| 0 <= j < r.num_chunks() implies #[trigger] g(j) == fint(f(j)) by {
        lemma_fint(chunk_of(d, j as nat), pow2(8 * (j as nat)) as int);
    }
    lemma_fint_isum(r.num_chunks(), f, g);
    assert(chunk_sum(images) == fint(d));
    // p * rounded + dropped - h = v * m
    lemma_fundamental_div_mod(t, p);
    lemma_fint(p, r.rounded(v));
    lemma_fint(p * r.rounded(v), d);
    lemma_fint(t, h);
    lemma_fint(v, m);
    let x = fint(v);
    let y = fint(m);
    lemma_fint(m, m);
    law_invertible(y);
    lemma_fmul_assoc(x, y, finv(y));
    lemma_fmul_one(x);
}

/// The columns of the chunks and of the values after the shift, evaluated at any point, recombine
/// to the evaluation at that point of the values before the requantisation. So the claims about
/// the looked up columns give the claim about the input of the layer.
pub proof fn law_recombine_claims(r: Requant, data: Seq<Element>, point: Seq<Fe>)
    requires
        r.total_shift() >= 1,
        r.total_shift() % 8 == 0,
        fint(r.fixed_point_multiplier as int) != fzero(),
        data.len() == pow2(point.len()),
        all_fe(point),
    ensures
        ({
            let n = data.len();
            let rounded = Seq::new(n, |i: int| fint(r.rounded(data[i] as int)));
            let chunk_evals = Seq::new(
                r.num_chunks(),
                |j: int|
                    mle(Seq::new(n, |i: int| fint(r.chunk(data[i] as int, j as nat))), point),
            );
            r.recombined(mle(rounded, point), chunk_evals) == mle(fints(data), point)
        }),
{
    let n = data.len();
    let rounded = Seq::new(n, |i: int| fint(r.rounded(data[i] as int)));
    let chunk_col = |j: int| Seq::new(n, |i: int| fint(r.chunk(data[i] as int, j as nat)));
    let chunk_evals = Seq::new(
        r.num_chunks(),
        |j: int| mle(Seq::new(n, |i: int| fint(r.chunk(data[i] as int, j as nat))), point),
    );
    let s = r.total_shift();
    let p = fint(pow2(s) as int);
    let h = fint(pow2((s - 1) as nat) as int);
    let y = fint(r.fixed_point_multiplier as int);
    let yi = finv(y);
    // the column of the chunk sums
    let sums = Seq::new(n, |i: int| chunk_sum(chunk_images(r, data[i] as int)));
    lemma_chunk_columns(r, data, point, r.num_chunks());
    assert(chunk_sum(chunk_evals) == mle(sums, point)) by {
        let a = |j: int| fmul(chunk_evals[j], fint(pow2(8 * (j as nat)) as int));
        let b = |j: int|
            fmul(
                mle(
                    Seq::new(n, |i: int| fint(r.chunk(data[i] as int, j as nat))),
                    point,
                ),
                fint(pow2(8 * (j as nat)) as int),
            );
        lemma_fsum_eq(r.num_chunks(), a, b);
        let part = Seq::new(
            n,
            |i: int|
                fsum(
                    r.num_chunks(),
                    |j: int|
                        fmul(
                            fint(r.chunk(data[i] as int, j as nat)),
                            fint(pow2(8 * (j as nat)) as int),
                        ),
                ),
        );
        assert forall|i: int| 0 <= i < n implies #[trigger] part[i] == sums[i] by {
            let images = chunk_images(r, data[i] as int);
            let u = |j: int|
                fmul(
                    fint(r.chunk(data[i] as int, j as nat)),
                    fint(pow2(8 * (j as nat)) as int),
                );
            let w = |j: int| fmul(images[j], fint(pow2(8 * (j as nat)) as int));
            lemma_fsum_eq(r.num_chunks(), u, w);
        }
        assert(part =~= sums);
    }
    // p * rounded + sums, entry by entry
    let full = Seq::new(n, |i: int| fadd(fmul(p, rounded[i]), sums[i]));
    lemma_mle_linear(p, rounded, sums, full, point);
    // minus h
    let hs = Seq::new(n, |i: int| h);
    lemma_fint(pow2((s - 1) as nat) as int, 0);
    lemma_mle_constant(h, hs, point);
    let minus_one = fint(-1);
    let diff = Seq::new(n, |i: int| fadd(fmul(minus_one, hs[i]), full[i]));
    lemma_mle_linear(minus_one, hs, full, diff, point);
    // times the inverse of the multiplier
    let zeros = Seq::new(n, |i: int| fzero());
    lemma_fint(0, 0);
    lemma_mle_constant(fzero(), zeros, point);
    let result = Seq::new(n, |i: int| fadd(fmul(yi, diff[i]), zeros[i]));
    lemma_mle_linear(yi, diff, zeros, result, point);
    assert forall|i: int| 0 <= i < n implies #[trigger] result[i] == fints(data)[i] by {
        let v = data[i] as int;
        law_recombine_value(r, v);
        lemma_minus_one(h, full[i]);
        lemma_fe_closed(yi, diff[i]);
        lemma_fadd_zero(fmul(yi, diff[i]));
        lemma_fmul_comm(yi, diff[i]);
    }
    lemma_mle_eq(result, fints(data), point);
    let fe = mle(full, point);
    lemma_minus_one(h, fe);
    lemma_fe_closed(yi, mle(diff, point));
    lemma_fadd_zero(fmul(yi, mle(diff, point)));
    lemma_fmul_comm(yi, mle(diff, point));
}

/// Adding minus one times `h` is subtracting `h`.
proof fn lemma_minus_one(h: Fe, x: Fe)
    requires
        is_fe(h),
    ensures
        fadd(fmul(fint(-1), h), x) == fsub(x, h),
{
    lemma_fint(1, 0);
    lemma_fmul_neg(fone(), h);
    lemma_fmul_one(h);
    lemma_fsub(x, h);
    lemma_fadd_comm(fmul(fint(-1), h), x);
}

/// Evaluating the columns of the chunks and adding up is adding up and evaluating.
proof fn lemma_chunk_columns(r: Requant, data: Seq<Element>, point: Seq<Fe>, k: nat)
    requires
        data.len() == pow2(point.len()),
        all_fe(point),
    ensures
        fsum(
            k,
            |j: int|
                fmul(
                    mle(
                        Seq::new(
                            data.len(),
                            |i: int| fint(r.chunk(data[i] as int, j as nat)),
                        ),
                        point,
                    ),
                    fint(pow2(8 * (j as nat)) as int),
                ),
        ) == mle(
            Seq::new(
                data.len(),
                |i: int|
                    fsum(
                        k,
                        |j: int|
                            fmul(
                                fint(r.chunk(data[i] as int, j as nat)),
                                fint(pow2(8 * (j as nat)) as int),
                            ),
                    ),
            ),
            point,
        ),
    decreases k,
{
    let n = data.len();
    let col = |j: int| Seq::new(n, |i: int| fint(r.chunk(data[i] as int, j as nat)));
    let w = |j: int| fint(pow2(8 * (j as nat)) as int);
    let part = |m: nat|
        Seq::new(
            n,
            |i: int|
                fsum(
                    m,
                    |j: int|
                        fmul(
                            fint(r.chunk(data[i] as int, j as nat)),
                            fint(pow2(8 * (j as nat)) as int),
                        ),
                ),
        );
    if k == 0 {
        lemma_fint(0, 0);
        lemma_mle_constant(fzero(), part(0), point);
    } else {
        let m = (k - 1) as nat;
        lemma_chunk_columns(r, data, point, m);
        let c = w(m as int);
        let u = part(k);
        let v = Seq::new(n, |i: int| fint(r.chunk(data[i] as int, m)));
        let rest = part(m);
        assert forall|i: int| 0 <= i < n implies #[trigger] u[i] == fadd(fmul(c, v[i]), rest[i]) by {
            let g = |j: int|
                fmul(
                    fint(r.chunk(data[i] as int, j as nat)),
                    fint(pow2(8 * (j as nat)) as int),
                );
            assert(fsum(k, g) == fadd(fsum(m, g), g(k - 1)));
            lemma_fmul_comm(c, v[i]);
            lemma_fadd_comm(fsum(m, g), g(k - 1));
        }
        lemma_mle_linear(c, v, rest, u, point);
        lemma_fmul_comm(c, mle(v, point));
        lemma_fadd_comm(fmul(c, mle(v, point)), mle(rest, point));
    }
}

/// The output column of the lookup holds the requantised values.
pub proof fn law_requant_range(r: Requant, v: int)
    ensures
        MIN <= r.applied(v) <= MAX,
        MIN <= r.rounded(v) <= MAX ==> r.applied(v) == r.rounded(v),
{
    law_clamped_idempotent(r.rounded(v));
}

// ---------------------------------------------------------------------------------------
// Functions
// ---------------------------------------------------------------------------------------

impl Requant {
    /// The requantisation with the given right shift and multiplier; the scale of the multiplier
    /// is the least from `FIXED_POINT_SCALE` on that makes the whole shift a multiple of the
    /// number of bits of a quantised value.
    pub fn new(
        right_shift: usize,
        fixed_point_multiplier: Element,
        intermediate_bit_size: usize,
    ) -> (r: Requant)
        requires
            right_shift + FIXED_POINT_SCALE + BIT_LEN <= usize::MAX,
        ensures
            r.right_shift == right_shift,
            r.fixed_point_multiplier == fixed_point_multiplier,
            r.intermediate_bit_size == intermediate_bit_size,
            r.fp_scale == scale_for(right_shift as nat),
    {
        Requant {
            right_shift,
            fixed_point_multiplier,
            fp_scale: Requant::fixed_point_scale(right_shift),
            intermediate_bit_size,
        }
    }

    /// The least scale, from `FIXED_POINT_SCALE` on, with which the shift is a multiple of the
    /// number of bits of a quantised value.
    pub fn fixed_point_scale(right_shift: usize) -> (r: usize)
        requires
            right_shift + FIXED_POINT_SCALE + BIT_LEN <= usize::MAX,
        ensures
            r == scale_for(right_shift as nat),
    {
        let least = right_shift + FIXED_POINT_SCALE;
        let excess = least % BIT_LEN;
        let next_multiple = if excess == 0 {
            least
        } else {
            least + (BIT_LEN - excess)
        };
        next_multiple - right_shift
    }

    /// The number of bits by which values are shifted.
    pub fn shift(&self) -> (r: usize)
        requires
            self.total_shift() <= usize::MAX,
        ensures
            r == self.total_shift(),
    {
        self.fp_scale + self.right_shift
    }

    /// Whether what is added up for `elem` can be held.
    pub fn can_apply(&self, elem: Element) -> (b: bool)
        requires
            1 <= self.total_shift() <= 127,
        ensures
            b == self.holds(elem as int),
    {
        proof {
            lemma_half_unit(*self);
        }
        let half = power_of_two(self.shift() - 1) as i128;
        match elem.checked_mul(self.fixed_point_multiplier) {
            Some(p) => p.checked_add(half).is_some(),
            None => false,
        }
    }

    /// The value multiplied, with half a unit added for rounding.
    fn scale(&self, elem: Element) -> (r: Element)
        requires
            1 <= self.total_shift() <= 127,
            self.holds(elem as int),
        ensures
            r == self.scaled(elem as int),
    {
        proof {
            lemma_half_unit(*self);
        }
        let half = power_of_two(self.shift() - 1) as i128;
        half + elem * self.fixed_point_multiplier
    }

    /// The requantised value.
    pub fn apply(&self, elem: &Element) -> (r: Element)
        requires
            1 <= self.total_shift() <= 127,
            self.holds(*elem as int),
        ensures
            r == self.applied(*elem as int),
    {
        clamp(shift_right(self.scale(*elem), self.shift()))
    }

    /// The tensor of the requantised values.
    pub fn op(&self, input: &Tensor<Element>) -> (r: Tensor<Element>)
        requires
            input@.plain(),
            1 <= self.total_shift() <= 127,
            forall|i: int|
                0 <= i < input@.data.len() ==> self.holds(#[trigger] input@.data[i] as int),
        ensures
            r@ == requant_out(*self, input@),
            r@.plain(),
    {
        let mut res: Vec<Element> = Vec::new();
        let mut i: usize = 0;
        while i < input.data.len()
            invariant
                i <= input.data.len(),
                1 <= self.total_shift() <= 127,
                forall|j: int|
                    0 <= j < input@.data.len() ==> self.holds(#[trigger] input@.data[j] as int),
                res.len() == i,
                forall|j: int|
                    0 <= j < i ==> #[trigger] res[j] == self.applied(input@.data[j] as int),
            decreases input.data.len() - i,
        {
            assert(self.holds(input@.data[i as int] as int));
            res.push(self.apply(&input.data[i]));
            i = i + 1;
        }
        proof {
            assert forall|i: int| 0 <= i < input@.data.len() implies res@[i] == self.applied(
                input@.data[i] as int,
            ) as i128 by {
                assert(res[i] == self.applied(input@.data[i] as int));
                law_requant_range(*self, input@.data[i] as int);
            }
            assert(res@ =~= requant_out(*self, input@).data);
        }
        Tensor::new(slice_to_vec(input.shape.as_slice()), res)
    }

    /// The number of bits of the values that the clamping table takes.
    pub fn clamping_size(&self) -> (r: usize)
        requires
            self.clamping_ok(),
        ensures
            r == self.clamping_bits(),
    {
        let fpm_bit_size = ceil_log2(#[verifier::truncate] (self.fixed_point_multiplier as usize));
        self.intermediate_bit_size + fpm_bit_size - self.shift()
    }

    /// The elements of the field that stand for this requantisation in the transcript.
    pub fn transcript_elements(&self) -> (r: Vec<GoldilocksExt2>)
        ensures
            fviews(r@) == seq![
                fint((self.right_shift as u64) as int),
                fint((self.fixed_point_multiplier as u64) as int),
            ],
    {
        let mut r: Vec<GoldilocksExt2> = Vec::new();
        r.push(GoldilocksExt2::from_u64(self.right_shift as u64));
        r.push(
            GoldilocksExt2::from_u64(#[verifier::truncate] (self.fixed_point_multiplier as u64)),
        );
        assert(fviews(r@) =~= seq![
            fint((self.right_shift as u64) as int),
            fint((self.fixed_point_multiplier as u64) as int),
        ]);
        r
    }

    /// Recombines the claims about the columns into the claim about the input.
    pub fn recombine_claims(
        &self,
        clamping_claim: GoldilocksExt2,
        shifted_claims: &[GoldilocksExt2],
    ) -> (r: GoldilocksExt2)
        requires
            1 <= self.total_shift() <= 63,
            fint(self.fixed_point_multiplier as int) != fzero(),
        ensures
            r@ == self.recombined(clamping_claim@, fviews(shifted_claims@)),
    {
        proof {
            lemma2_to64();
            lemma2_to64_rest();
            lemma_pow2_mono(self.total_shift(), 63);
            lemma_pow2_mono((self.total_shift() - 1) as nat, 63);
        }
        let unit = GoldilocksExt2::from_u64(power_of_two(self.shift()) as u64);
        let base = GoldilocksExt2::from_u64(power_of_two(BIT_LEN) as u64);
        let mut sum = GoldilocksExt2::zero();
        let mut power = GoldilocksExt2::one();
        let mut j: usize = 0;
        let ghost sc = fviews(shifted_claims@);
        let ghost f = |j: int| fmul(sc[j], fint(pow2(8 * (j as nat)) as int));
        proof {
            lemma_pow2_zero();
            lemma_fint(0, 0);
        }
        while j < shifted_claims.len()
            invariant
                j <= shifted_claims@.len(),
                sc == fviews(shifted_claims@),
                f == (|j: int| fmul(sc[j], fint(pow2(8 * (j as nat)) as int))),
                base@ == fint(256),
                power@ == fint(pow2(8 * (j as nat)) as int),
                sum@ == fsum(j as nat, f),
            decreases shifted_claims@.len() - j,
        {
            proof {
                lemma_fint(pow2(8 * (j as nat)) as int, 256);
                lemma_pow2_adds(8 * (j as nat), 8);
                lemma2_to64();
            }
            sum = sum.plus(shifted_claims[j].times(power));
            power = power.times(base);
            j = j + 1;
        }
        let full = unit.times(clamping_claim).plus(sum);
        let half = GoldilocksExt2::from_u64(power_of_two(self.shift() - 1) as u64);
        let multiplier = to_field(self.fixed_point_multiplier);
        proof {
            lemma_fint(self.fixed_point_multiplier as int, 1);
            law_invertible(multiplier@);
        }
        let inverse = match multiplier.invert() {
            Some(x) => x,
            None => multiplier,
        };
        full.minus(half).times(inverse)
    }

    /// The columns that the requantisation of a tensor looks up. Fails where the step does not
    /// have one input and one output.
    pub fn lookup_columns(&self, inputs: &[Tensor<Element>], num_outputs: usize) -> (r: Result<
        RequantColumns,
        ProvableOpError,
    >)
        requires
            1 <= self.total_shift() <= 126,
            inputs@.len() == 1 ==> forall|i: int|
                0 <= i < inputs@[0]@.data.len() ==> self.holds(
                    #[trigger] inputs@[0]@.data[i] as int,
                ),
            inputs@.len() == 1 ==> self.num_chunks() * inputs@[0]@.data.len() <= usize::MAX,
        ensures
            inputs@.len() != 1 ==> parameter_error(
                r,
                "Requant layer expects exactly one input tensor"@,
            ),
            inputs@.len() == 1 && num_outputs != 1 ==> parameter_error(
                r,
                "Requant layer expects exactly one output tensor"@,
            ),
            inputs@.len() == 1 && num_outputs == 1 ==> r is Ok && requant_columns(
                *self,
                inputs@[0]@.data,
                r->Ok_0,
            ),
    {
        if inputs.len() != 1 {
            return parameter_err("Requant layer expects exactly one input tensor");
        }
        if num_outputs != 1 {
            return parameter_err("Requant layer expects exactly one output tensor");
        }
        let data = inputs[0].data.as_slice();
        let n = data.len();
        let shift = self.shift();
        let mut dropped: Vec<Element> = Vec::new();
        let mut clamping_in: Vec<GoldilocksExt2> = Vec::new();
        let mut clamping_out: Vec<GoldilocksExt2> = Vec::new();
        let mut merged_clamping: Vec<Element> = Vec::new();
        let mut i: usize = 0;
        while i < n
            invariant
                n == data@.len(),
                i <= n,
                1 <= self.total_shift() <= 126,
                shift == self.total_shift(),
                forall|k: int| 0 <= k < n ==> self.holds(#[trigger] data@[k] as int),
                dropped.len() == i,
                clamping_in.len() == i,
                clamping_out.len() == i,
                merged_clamping.len() == i,
                forall|k: int|
                    0 <= k < i ==> #[trigger] dropped[k] == self.dropped(data@[k] as int)
                        && dropped[k] >= 0,
                forall|k: int|
                    0 <= k < i ==> #[trigger] clamping_in[k]@ == fint(
                        self.rounded(data@[k] as int),
                    ),
                forall|k: int|
                    0 <= k < i ==> #[trigger] clamping_out[k]@ == fint(
                        self.applied(data@[k] as int),
                    ),
                forall|k: int|
                    0 <= k < i ==> #[trigger] merged_clamping[k] == self.rounded(data@[k] as int)
                        + self.applied(data@[k] as int) * COLUMN_SEPARATOR,
            decreases n - i,
        {
            assert(self.holds(data@[i as int] as int));
            let tmp = self.scale(data[i]);
            let c_in = shift_right(tmp, shift);
            let c_out = clamp(c_in);
            proof {
                lemma_pow2_mono(1, shift as nat);
                lemma_pow2_step(0);
                lemma_pow2_zero();
                let p = pow2(shift as nat) as int;
                lemma_fundamental_div_mod(tmp as int, p);
                lemma_mod_bound(tmp as int, p);
                // the quotient is at most half the range
                assert(2 * c_in <= tmp || c_in < 0) by (nonlinear_arith)
                    requires
                        tmp == p * c_in + tmp as int % p,
                        0 <= tmp as int % p,
                        p >= 2,
                ;
                assert(c_in >= 0 || 2 * c_in >= tmp - 1) by (nonlinear_arith)
                    requires
                        tmp == p * c_in + tmp as int % p,
                        tmp as int % p < p,
                        p >= 2,
                ;
            }
            dropped.push(low_bits(tmp, shift));
            clamping_in.push(to_field(c_in));
            clamping_out.push(to_field(c_out));
            merged_clamping.push(c_in + c_out * COLUMN_SEPARATOR);
            i = i + 1;
        }
        let no_chunks = shift / BIT_LEN;
        let (shifted, merged_shifted) = split_chunks(dropped.as_slice(), no_chunks);
        let ghost cin = clamping_in@;
        let ghost cout = clamping_out@;
        let mut clamping: Vec<Vec<GoldilocksExt2>> = Vec::new();
        clamping.push(clamping_in);
        clamping.push(clamping_out);
        let columns = RequantColumns { clamping, shifted, merged_clamping, merged_shifted };
        proof {
            let want_in = Seq::new(n as nat, |i: int| fint(self.rounded(data@[i] as int)));
            let want_out = Seq::new(n as nat, |i: int| fint(self.applied(data@[i] as int)));
            assert(fviews(cin) =~= want_in);
            assert(fviews(cout) =~= want_out);
            assert(fviews2(columns.clamping@) =~= seq![want_in, want_out]);
            assert forall|j: int| 0 <= j < no_chunks implies fviews2(columns.shifted@)[j]
                =~= Seq::new(n as nat, |i: int| fint(self.chunk(data@[i] as int, j as nat))) by {
                let col = fviews2(columns.shifted@)[j];
                let want = Seq::new(
                    n as nat,
                    |i: int| fint(chunk_of(dropped@[i] as int, j as nat)),
                );
                assert(col == want);
                assert forall|i: int| 0 <= i < n implies want[i] == fint(
                    self.chunk(data@[i] as int, j as nat),
                ) by {
                    assert(dropped[i] == self.dropped(data@[i] as int));
                }
            }
            assert(fviews2(columns.shifted@) =~= Seq::new(
                self.num_chunks(),
                |j: int| Seq::new(n as nat, |i: int| fint(self.chunk(data@[i] as int, j as nat))),
            ));
            assert forall|j: int, i: int|
                0 <= j < no_chunks && 0 <= i < n implies #[trigger] columns.merged_shifted@[j * n
                + i] == self.chunk(data@[i] as int, j as nat) by {
                assert(dropped[i] == self.dropped(data@[i] as int));
            }
        }
        Ok(columns)
    }

    /// Records the witnesses of the requantisation of node `id`, and the lookups into the tables.
    /// Fails where one of the tables was not expected: the witnesses are then recorded, and so are
    /// the lookups into the range table where that one was.
    pub fn gen_lookup_witness<C>(
        &self,
        id: NodeId,
        gen: &mut LookupWitnessGen<C>,
        columns: RequantColumns,
        clamping_commits: Vec<C>,
        shifted_commits: Vec<C>,
    ) -> (r: Result<(), ProvableOpError>)
        requires
            self.clamping_ok(),
        ensures
            ({
                let clamping_table = TableType::Clamping(self.clamping_bits() as usize);
                let before = old(gen).new_lookups@;
                let after = lookups_view(final(gen).new_lookups@);
                let range = table_place(before, TableType::Range);
                let clamping = table_place(before, clamping_table);
                let with_range = extended(
                    lookups_view(before),
                    range,
                    columns.merged_shifted@,
                );
                let witnesses = final(gen).logup_witnesses@;
                &&& witnesses.dom() == old(gen).logup_witnesses@.dom().insert(id)
                &&& forall|n: NodeId|
                    n != id && old(gen).logup_witnesses@.contains_key(n)
                        ==> #[trigger] witnesses[n] == old(gen).logup_witnesses@[n]
                &&& witnesses[id]@ == seq![
                    (LogUpWitness::Lookup {
                        commits: clamping_commits,
                        column_evals: columns.clamping,
                        columns_per_instance: 2,
                        table_type: clamping_table,
                    }),
                    (LogUpWitness::Lookup {
                        commits: shifted_commits,
                        column_evals: columns.shifted,
                        columns_per_instance: 1,
                        table_type: TableType::Range,
                    }),
                ]
                &&& if range == before.len() {
                    &&& parameter_error(
                        r,
                        "No table of type Range was expected, error occured during requant step"@,
                    )
                    &&& after == lookups_view(before)
                } else if clamping == before.len() {
                    &&& parameter_error(
                        r,
                        "No table of type "@ + clamping_table.label() + " was expected"@,
                    )
                    &&& after == with_range
                } else {
                    &&& r is Ok
                    &&& after == extended(with_range, clamping, columns.merged_clamping@)
                }
            }),
    {
        let table = TableType::Clamping(self.clamping_size());
        let ghost start = gen.new_lookups@;
        let RequantColumns { clamping, shifted, merged_clamping, merged_shifted } = columns;
        let mut witnesses: Vec<LogUpWitness<C>> = Vec::new();
        witnesses.push(LogUpWitness::new_lookup(clamping_commits, clamping, 2, table));
        witnesses.push(LogUpWitness::new_lookup(shifted_commits, shifted, 1, TableType::Range));
        gen.logup_witnesses.insert(id, witnesses);
        proof {
            lemma_table_place(start, TableType::Range);
            lemma_table_place(start, table);
        }
        if !gen.extend_lookups(TableType::Range, merged_shifted.as_slice()) {
            return parameter_err(
                "No table of type Range was expected, error occured during requant step",
            );
        }
        proof {
            let now = gen.new_lookups@;
            assert(lookups_view(now).len() == start.len());
            assert forall|i: int| 0 <= i < start.len() implies lookups_view(now)[i].0
                == #[trigger] start[i].0 by {
                assert(lookups_view(start)[i].0 == start[i].0);
            }
            lemma_same_tables(start, now, table);
        }
        if !gen.extend_lookups(table, merged_clamping.as_slice()) {
            let m = joined(
                joined("No table of type ", table.name().as_str()).as_str(),
                " was expected",
            );
            return parameter_err(m.as_str());
        }
        Ok(())
    }
}

/// The place of a table depends on the kinds of the tables alone.
proof fn lemma_same_tables(
    a: Seq<(TableType, Vec<Element>)>,
    b: Seq<(TableType, Vec<Element>)>,
    table: TableType,
)
    requires
        a.len() == b.len(),
        forall|i: int| 0 <= i < a.len() ==> lookups_view(b)[i].0 == #[trigger] a[i].0,
    ensures
        table_place(a, table) == table_place(b, table),
    decreases a.len(),
{
    if a.len() > 0 {
        assert(lookups_view(b)[0].0 == a[0].0);
        assert forall|i: int| 0 <= i < a.skip(1).len() implies lookups_view(b.skip(1))[i].0
            == #[trigger] a.skip(1)[i].0 by {
            assert(lookups_view(b)[i + 1].0 == a[i + 1].0);
        }
        lemma_same_tables(a.skip(1), b.skip(1), table);
    }
}

/// The result of the requantisation of a tensor.
pub open spec fn requant_out(r: Requant, x: TensorView<Element>) -> TensorView<Element> {
    tensor(x.shape, Seq::new(x.data.len(), |i: int| r.applied(x.data[i] as int) as i128))
}

/// The least scale, from `FIXED_POINT_SCALE` on, with which the shift is a multiple of the number
/// of bits of a quantised value.
pub open spec fn scale_for(right_shift: nat) -> int {
    let least = right_shift + FIXED_POINT_SCALE;
    (least + 7) / 8 * 8 - right_shift
}

/// The scale is at least `FIXED_POINT_SCALE`, the shift is a multiple of the number of bits of a
/// quantised value, and no smaller scale will do.
pub proof fn law_scale(right_shift: nat, other: nat)
    requires
        other >= FIXED_POINT_SCALE,
        (other + right_shift) % 8 == 0,
    ensures
        scale_for(right_shift) >= FIXED_POINT_SCALE,
        (scale_for(right_shift) + right_shift) % 8 == 0,
        scale_for(right_shift) <= other,
{
}

proof fn lemma_half_unit(r: Requant)
    requires
        1 <= r.total_shift() <= 127,
    ensures
        pow2((r.total_shift() - 1) as nat) <= i128::MAX,
{
    lemma_pow2_127();
    lemma_pow2_mono((r.total_shift() - 1) as nat, 126);
}

/// The chunks of the dropped bits: as columns of field elements, and one column after the other as
/// values.
fn split_chunks(dropped: &[Element], no_chunks: usize) -> (r: (
    Vec<Vec<GoldilocksExt2>>,
    Vec<Element>,
))
    requires
        no_chunks * 8 <= 127,
        no_chunks * dropped@.len() <= usize::MAX,
        forall|i: int| 0 <= i < dropped@.len() ==> #[trigger] dropped@[i] >= 0,
    ensures
        fviews2(r.0@) == Seq::new(
            no_chunks as nat,
            |j: int|
                Seq::new(
                    dropped@.len(),
                    |i: int| fint(chunk_of(dropped@[i] as int, j as nat)),
                ),
        ),
        r.1@.len() == no_chunks * dropped@.len(),
        forall|j: int, i: int|
            0 <= j < no_chunks && 0 <= i < dropped@.len() ==> #[trigger] r.1@[j * dropped@.len()
                + i] == chunk_of(dropped@[i] as int, j as nat),
{
    let n = dropped.len();
    let mut columns: Vec<Vec<GoldilocksExt2>> = Vec::new();
    let mut merged: Vec<Element> = Vec::new();
    let mut j: usize = 0;
    while j < no_chunks
        invariant
            n == dropped@.len(),
            j <= no_chunks,
            no_chunks * 8 <= 127,
            columns.len() == j,
            forall|k: int|
                0 <= k < j ==> fviews((#[trigger] columns[k])@) == Seq::new(
                    n as nat,
                    |i: int| fint(chunk_of(dropped@[i] as int, k as nat)),
                ),
            merged.len() == j * n,
            forall|k: int, i: int|
                0 <= k < j && 0 <= i < n ==> #[trigger] merged@[k * n + i] == chunk_of(
                    dropped@[i] as int,
                    k as nat,
                ),
        decreases no_chunks - j,
    {
        let mut column: Vec<GoldilocksExt2> = Vec::new();
        let mut i: usize = 0;
        while i < n
            invariant
                n == dropped@.len(),
                j < no_chunks,
                no_chunks * 8 <= 127,
                i <= n,
                column.len() == i,
                forall|l: int|
                    0 <= l < i ==> #[trigger] column[l]@ == fint(
                        chunk_of(dropped@[l] as int, j as nat),
                    ),
                merged.len() == j * n + i,
                forall|k: int, l: int|
                    0 <= k < j && 0 <= l < n ==> #[trigger] merged@[k * n + l] == chunk_of(
                        dropped@[l] as int,
                        k as nat,
                    ),
                forall|l: int|
                    0 <= l < i ==> #[trigger] merged@[j * n + l] == chunk_of(
                        dropped@[l] as int,
                        j as nat,
                    ),
            decreases n - i,
        {
            let c = low_bits(shift_right(dropped[i], j * BIT_LEN), BIT_LEN);
            let ghost before = merged@;
            proof {
                lemma2_to64();
                lemma_mul_is_commutative(j as int, 8);
            }
            column.push(to_field(c));
            merged.push(c);
            proof {
                assert forall|k: int, l: int| 0 <= k < j && 0 <= l < n implies #[trigger] merged@[k
                    * n + l] == chunk_of(dropped@[l] as int, k as nat) by {
                    lemma_flat(k, l, j as int, n as int);
                    assert(before[k * n + l] == chunk_of(dropped@[l] as int, k as nat));
                }
                assert(j * n >= 0) by (nonlinear_arith);
                assert forall|l: int| 0 <= l < i + 1 implies #[trigger] merged@[j * n + l]
                    == chunk_of(dropped@[l] as int, j as nat) by {
                    if l < i {
                        assert(before[j * n + l] == chunk_of(dropped@[l] as int, j as nat));
                    }
                }
            }
            i = i + 1;
        }
        assert(fviews(column@) =~= Seq::new(
            n as nat,
            |i: int| fint(chunk_of(dropped@[i] as int, j as nat)),
        ));
        columns.push(column);
        assert((j + 1) * n == j * n + n) by (nonlinear_arith);
        j = j + 1;
    }
    assert(fviews2(columns@) =~= Seq::new(
        no_chunks as nat,
        |j: int|
            Seq::new(dropped@.len(), |i: int| fint(chunk_of(dropped@[i] as int, j as nat))),
    ));
    (columns, merged)
}

} // verus!
