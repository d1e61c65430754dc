//! What is looked up, and where.
use crate::arith::{clog2, lemma_clog2, lemma_pow2_mono, lemma_pow2_step, lemma_pow2_zero, npow2};
use crate::field::{GoldilocksExt2, fint, fviews2};
use crate::iop::find_challenge;
use crate::iop::context::with_table;
use crate::laws::shapes::{law_product, law_window_size};
use crate::laws::values::lemma_quotient;
use crate::layers::Layer;
use crate::layers::activation::{ActivationColumns, activation_columns, shape_vars};
use crate::layers::convolution::Convolution;
use crate::layers::dense::Dense;
use crate::layers::quantize::bias_bounds;
use crate::layers::requant::{Requant, RequantColumns, chunk_of, lemma_chunks, requant_columns};
use crate::lookup::context::TableType;
use crate::lookup::witness::{LogUpInput, LogUpWitness, extended, lookups_view, table_place};
use crate::quantization::Element;
use crate::shape::{pow2_shape, pow2_shape_fits, product};
use crate::sums::{isum, lemma_isum_eq};
use vstd::arithmetic::div_mod::*;
use vstd::arithmetic::mul::*;
use vstd::arithmetic::power2::*;
use vstd::prelude::*;

verus! {

/// The columns of a requantisation hold, for each value, what it is after the shift and after it
/// is brought into range, and the bytes that the shift drops, so that they give back the product:
/// with `sum = x m + 2^(s-1)`, the value after the shift times `2^s`, plus the bytes, each at its
/// place, is `sum`. The merged columns hold the same, the two first merged into one.
pub proof fn law_requant_columns(r: Requant, data: Seq<Element>, c: RequantColumns, i: int) -> (top:
    int)
    requires
        requant_columns(r, data, c),
        0 <= i < data.len(),
        r.fp_scale + r.right_shift >= 1,
        (r.fp_scale + r.right_shift) % 8 == 0,
    ensures
        ({
            let n = data.len() as int;
            let s = r.fp_scale + r.right_shift;
            let unit = pow2(s as nat) as int;
            let sum = data[i] * r.fixed_point_multiplier + pow2((s - 1) as nat);
            let y = if top > 127 {
                127
            } else if top < -127 {
                -127
            } else {
                top
            };
            &&& top * unit <= sum < (top + 1) * unit
            &&& c.clamping@.len() == 2
            &&& c.clamping@[0]@.len() == n
            &&& c.clamping@[1]@.len() == n
            &&& c.clamping@[0]@[i]@ == fint(top)
            &&& c.clamping@[1]@[i]@ == fint(y)
            &&& c.merged_clamping@.len() == n
            &&& c.merged_clamping@[i] == top + y * 0x1_0000_0000
            &&& 8 * c.shifted@.len() == s
            &&& c.merged_shifted@.len() == c.shifted@.len() * n
            &&& forall|j: int|
                0 <= j < c.shifted@.len() ==> {
                    &&& (#[trigger] c.shifted@[j])@.len() == n
                    &&& 0 <= c.merged_shifted@[j * n + i] < 256
                    &&& c.shifted@[j]@[i]@ == fint(c.merged_shifted@[j * n + i] as int)
                }
            &&& top * unit + isum(
                c.shifted@.len(),
                |j: int| c.merged_shifted@[j * n + i] * pow2(8 * (j as nat)),
            ) == sum
        }),
{
    let n = data.len() as int;
    let v = data[i] as int;
    let s = (r.fp_scale + r.right_shift) as nat;
    let unit = pow2(s) as int;
    let sum = r.scaled(v);
    let top = r.rounded(v);
    let k = r.num_chunks();
    lemma_pow2_pos(s);
    lemma_quotient(sum, unit);
    assert(8 * k == s);
    assert(fviews2(c.clamping@)[0][i] == fint(top));
    assert(fviews2(c.clamping@)[1][i] == fint(r.applied(v)));
    assert(fviews2(c.clamping@)[0].len() == n);
    assert(fviews2(c.clamping@)[1].len() == n);
    assert(fviews2(c.clamping@).len() == 2);
    assert(fviews2(c.shifted@).len() == k);
    lemma_mod_bound(sum, unit);
    let drop = r.dropped(v);
    lemma_chunks(drop, k);
    lemma_small_mod(drop as nat, unit as nat);
    let f = |j: int| c.merged_shifted@[j * n + i] * pow2(8 * (j as nat));
    let g = |j: int| chunk_of(drop, j as nat) * pow2(8 * (j as nat));
    assert forall|j: int| 0 <= j < k implies #[trigger] f(j) == g(j) by {
        assert(c.merged_shifted@[j * n + i] == r.chunk(v, j as nat));
    }
    lemma_isum_eq(k, f, g);
    assert forall|j: int| 0 <= j < c.shifted@.len() implies {
        &&& (#[trigger] c.shifted@[j])@.len() == n
        &&& 0 <= c.merged_shifted@[j * n + i] < 256
        &&& c.shifted@[j]@[i]@ == fint(c.merged_shifted@[j * n + i] as int)
    } by {
        assert(c.merged_shifted@[j * n + i] == r.chunk(v, j as nat));
        assert(fviews2(c.shifted@)[j].len() == n);
        assert(fviews2(c.shifted@)[j][i] == fint(r.chunk(v, j as nat)));
    }
    top
}

/// The columns of an activation hold its inputs and its outputs; the merged column holds each
/// input plus `2^32` times its output.
pub proof fn law_activation_columns(
    a: Seq<Element>,
    b: Seq<Element>,
    c: ActivationColumns,
    i: int,
)
    requires
        activation_columns(a, b, c),
        0 <= i < a.len(),
        a.len() == b.len(),
    ensures
        c.columns@.len() == 2,
        c.columns@[0]@.len() == a.len(),
        c.columns@[1]@.len() == a.len(),
        c.columns@[0]@[i]@ == fint(a[i] as int),
        c.columns@[1]@[i]@ == fint(b[i] as int),
        c.merged@.len() == a.len(),
        c.merged@[i] == a[i] + 0x1_0000_0000 * b[i],
{
    assert(fviews2(c.columns@).len() == 2);
    assert(fviews2(c.columns@)[0][i] == fint(a[i] as int));
    assert(fviews2(c.columns@)[1][i] == fint(b[i] as int));
    assert(fviews2(c.columns@)[0].len() == a.len());
    assert(fviews2(c.columns@)[1].len() == a.len());
}

/// The entry for a table is the first that bears its name; there is none exactly where the place
/// is behind the last.
pub proof fn law_table_place(lookups: Seq<(TableType, Vec<Element>)>, table: TableType)
    ensures
        0 <= table_place(lookups, table) <= lookups.len(),
        table_place(lookups, table) < lookups.len() ==> lookups[table_place(lookups, table)].0
            == table,
        forall|i: int|
            0 <= i < table_place(lookups, table) ==> (#[trigger] lookups[i]).0 != table,
    decreases lookups.len(),
{
    if lookups.len() > 0 && lookups[0].0 != table {
        let rest = lookups.skip(1);
        law_table_place(rest, table);
        assert forall|i: int| 0 <= i < table_place(lookups, table) implies (
        #[trigger] lookups[i]).0 != table by {
            if i > 0 {
                assert(rest[i - 1] == lookups[i]);
            }
        }
    }
}

/// Adding values to look up puts them behind those that are there for the table, and changes
/// nothing for other tables.
pub proof fn law_extended(
    before: Seq<(TableType, Vec<Element>)>,
    p: int,
    values: Seq<Element>,
    after: Seq<(TableType, Vec<Element>)>,
    i: int,
)
    requires
        0 <= p < before.len(),
        0 <= i < before.len(),
        lookups_view(after) == extended(lookups_view(before), p, values),
    ensures
        after.len() == before.len(),
        after[i].0 == before[i].0,
        i != p ==> after[i].1@ == before[i].1@,
        after[p].1@ == before[p].1@ + values,
{
    assert(lookups_view(after).len() == after.len());
    assert(lookups_view(after)[i] == (after[i].0, after[i].1@));
    assert(lookups_view(after)[p] == (after[p].0, after[p].1@));
}

/// Adding a table keeps the tables that there are, in their order, and adds it behind them where
/// it is not among them.
pub proof fn law_with_table(tables: Seq<TableType>, t: TableType)
    ensures
        with_table(tables, t).contains(t),
        with_table(tables, t).take(tables.len() as int) == tables,
        with_table(tables, t).len() == tables.len() + (if tables.contains(t) {
            0int
        } else {
            1
        }),
        tables.no_duplicates() ==> with_table(tables, t).no_duplicates(),
{
    let r = with_table(tables, t);
    assert(r.take(tables.len() as int) =~= tables);
    if !tables.contains(t) {
        assert(r[tables.len() as int] == t);
    }
}

/// The challenge with a name is that of the first entry with this name.
pub proof fn law_find_challenge(map: Seq<(String, GoldilocksExt2)>, name: Seq<char>, k: int)
    requires
        0 <= k <= map.len(),
        forall|i: int| 0 <= i < k ==> (#[trigger] map[i]).0@ != name,
    ensures
        k == map.len() ==> find_challenge(map, name) is None,
        k < map.len() && map[k].0@ == name ==> find_challenge(map, name) == Some(map[k].1),
    decreases k,
{
    if k > 0 {
        assert(map[0].0@ != name);
        let rest = map.skip(1);
        assert forall|i: int| 0 <= i < k - 1 implies (#[trigger] rest[i]).0@ != name by {
            assert(rest[i] == map[i + 1]);
        }
        law_find_challenge(rest, name, k - 1);
    }
}

/// A tensor has as many variables as the number of entries of its padded shape has bits: that
/// number is the power of two with this exponent.
pub proof fn law_shape_vars(s: Seq<usize>)
    requires
        pow2_shape_fits(s),
    ensures
        product(pow2_shape(s)) == pow2(shape_vars(s)),
    decreases s.len(),
{
    lemma_pow2_zero();
    if s.len() > 0 {
        let t = s.drop_last();
        let last = pow2_shape(s)[s.len() - 1];
        assert forall|i: int| 0 <= i < t.len() implies npow2(#[trigger] t[i] as nat)
            <= usize::MAX by {
            assert(npow2(s[i] as nat) <= usize::MAX);
        }
        law_shape_vars(t);
        assert(npow2(s[s.len() - 1] as nat) <= usize::MAX);
        assert(pow2_shape(s) =~= pow2_shape(t).push(last));
        law_product(pow2_shape(t), last);
        lemma_pow2_adds(shape_vars(t), clog2(s.last() as nat));
    } else {
        assert(pow2_shape(s).len() == 0);
    }
}

/// A bias is quantised to values of sixteen bits, evenly around zero.
pub proof fn law_bias_bounds()
    ensures
        bias_bounds() == (-32767int, 32767int),
{
    lemma2_to64();
}

/// What a layer with weights adds up has fourteen bits for a product, and as many more as the
/// number of products has, for a dense layer with one for the bias.
pub proof fn law_intermediate_bits(d: Dense<Element>, c: Convolution<Element>, e: nat, f: nat)
    requires
        d.matrix@.shape.len() == 2,
        c.filter@.shape.len() == 4,
        ({
            let n = d.matrix@.shape[1];
            n >= 1 && n <= pow2(e) < 2 * n
        }),
        ({
            let s = c.filter@.shape;
            let n = s[1] * (s[2] * s[3]) + 1;
            n <= pow2(f) < 2 * n
        }),
    ensures
        Layer::Dense(d).intermediate_bits() == 15 + e,
        Layer::Convolution(c).intermediate_bits() == 14 + f,
{
    law_window_size(c);
    lemma_clog2_is(d.matrix@.shape[1] as nat, e);
    lemma_clog2_is(c.window_size(), f);
}

proof fn lemma_clog2_is(n: nat, e: nat)
    requires
        n >= 1,
        n <= pow2(e) < 2 * n,
    ensures
        clog2(n) == e,
{
    lemma_clog2(n);
    lemma_pow2_zero();
    if clog2(n) < e {
        lemma_pow2_mono(clog2(n) + 1, e);
        lemma_pow2_step(clog2(n));
    }
}

/// The table of the clamping has as many bits as the product of a value and the multiplier, less
/// those that the shift drops.
pub proof fn law_clamping_bits(r: Requant, e: nat)
    requires
        1 <= r.fixed_point_multiplier <= usize::MAX,
        r.fixed_point_multiplier <= pow2(e) < 2 * r.fixed_point_multiplier,
    ensures
        r.clamping_bits() == r.intermediate_bit_size + e - r.fp_scale - r.right_shift,
{
    lemma_clog2_is(r.fixed_point_multiplier as nat, e);
}

/// A witness tells its table, and the input to a lookup its columns.
pub proof fn law_witness<C>(w: LogUpWitness<C>, i: LogUpInput)
    ensures
        match w {
            LogUpWitness::Lookup { table_type, .. } => w.table() == table_type,
            LogUpWitness::Table { table_type, .. } => w.table() == table_type,
        },
        match i {
            LogUpInput::Lookup { column_evals, .. } => i.columns() == column_evals@,
            LogUpInput::Table { column_evals, .. } => i.columns() == column_evals@,
        },
{
}

} // verus!
