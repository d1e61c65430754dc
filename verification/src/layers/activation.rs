//! The activation layer.
use crate::arith::{ceil_log2, clog2};
use crate::claim::{Claim, ClaimView, cviews};
use crate::field::{GoldilocksExt2, fint, fviews, fviews2};
use crate::iop::{ChallengeStorage, find_challenge};
use crate::iop::context::{ContextAux, copy_shapes, with_table};
use crate::layers::provable::{LayerOut, NodeId, PaddingMode, single_output};
use crate::layers::provable::error::{
    ProvableOpError, generic_err, generic_error, parameter_err, parameter_error,
};
use crate::lookup::context::{COLUMN_SEPARATOR, TableType};
use crate::lookup::witness::{
    LogUpWitness, LookupWitnessGen, extended, lemma_table_place, lookups_view, table_place,
};
use crate::quantization::{BIT_LEN, Element, fints, fits, to_field};
use crate::shape::{positive, shapes};
use crate::tensor::{Tensor, TensorView, tensor};
use crate::text::{append_decimal, decimal};
use vstd::prelude::*;
use vstd::slice::slice_to_vec;
use vstd::string::*;

verus! {

/// The activation functions.
#[derive(Clone, Copy, Debug)]
pub enum Activation {
    Relu(Relu),
}

/// The function that sets negative values to zero.
#[derive(Clone, Copy, Debug)]
pub struct Relu;

/// What the set-up keeps of an activation layer.
#[derive(Clone, Debug)]
pub struct ActivationCtx {
    pub op: Activation,
    pub node_id: NodeId,
    pub num_vars: usize,
}

/// The columns that an activation looks up, as elements of the field, and merged into one value for
/// each lookup.
#[derive(Clone, Debug)]
pub struct ActivationColumns {
    pub columns: Vec<Vec<GoldilocksExt2>>,
    pub merged: Vec<Element>,
}

/// The claims that an activation ends with: one for each commitment, and that about its input.
#[derive(Clone, Debug)]
pub struct ActivationOutcome {
    pub witness_claims: Vec<Claim<GoldilocksExt2>>,
    pub next_claim: Claim<GoldilocksExt2>,
}

/// `e`, or zero where it is negative.
pub open spec fn relu(e: int) -> int {
    if e < 0 {
        0
    } else {
        e
    }
}

/// The result of the activation of a tensor.
pub open spec fn relu_out(x: TensorView<Element>) -> TensorView<Element> {
    tensor(x.shape, Seq::new(x.data.len(), |i: int| relu(x.data[i] as int) as i128))
}

/// The activation never gives a negative value, leaves values that are not negative as they are,
/// and applied twice gives what it gives once.
pub proof fn law_relu(e: int)
    ensures
        relu(e) >= 0,
        e >= 0 ==> relu(e) == e,
        relu(relu(e)) == relu(e),
{
}

impl Relu {
    pub fn new() -> (r: Relu) {
        Relu
    }

    /// The number of variables of the table of the function.
    pub fn num_vars() -> (r: usize)
        ensures
            r == BIT_LEN,
    {
        BIT_LEN
    }

    /// The number of entries of the table of the function.
    pub fn poly_len() -> (r: usize)
        ensures
            r == 256,
    {
        256
    }

    /// The shape of the table of the function: a column of inputs and one of outputs.
    pub fn shape() -> (r: Vec<usize>)
        ensures
            r@ == seq![2usize, 256usize],
    {
        let mut r: Vec<usize> = Vec::new();
        r.push(2);
        r.push(Relu::poly_len());
        assert(r@ =~= seq![2usize, 256usize]);
        r
    }

    /// The tensor of the values of the function.
    pub fn op(&self, input: &Tensor<Element>) -> (r: Tensor<Element>)
        requires
            input@.plain(),
        ensures
            r@ == relu_out(input@),
            r@.plain(),
    {
        let mut data: Vec<Element> = Vec::new();
        let mut i: usize = 0;
        while i < input.data.len()
            invariant
                i <= input.data.len(),
                data.len() == i,
                forall|j: int| 0 <= j < i ==> #[trigger] data[j] == relu(input@.data[j] as int),
            decreases input.data.len() - i,
        {
            data.push(Relu::apply(input.data[i]));
            i = i + 1;
        }
        assert(data@ =~= relu_out(input@).data);
        Tensor::new(slice_to_vec(input.shape.as_slice()), data)
    }

    /// `e`, or zero where it is negative.
    pub fn apply(e: Element) -> (r: Element)
        ensures
            r == relu(e as int),
    {
        if e < 0 {
            0
        } else {
            e
        }
    }
}

/// The number of variables of a tensor of the given shape, each dimension rounded up to a power of
/// two.
pub open spec fn shape_vars(s: Seq<usize>) -> nat
    decreases s.len(),
{
    if s.len() == 0 {
        0
    } else {
        shape_vars(s.drop_last()) + clog2(s.last() as nat)
    }
}

/// The number of variables that all the shapes have, where they agree on it.
pub fn common_vars(shapes_in: &[Vec<usize>]) -> (r: Option<usize>)
    requires
        shapes_in@.len() > 0,
        forall|i: int| 0 <= i < shapes_in@.len() ==> positive(#[trigger] shapes(shapes_in@)[i]),
        forall|i: int|
            0 <= i < shapes_in@.len() ==> shape_vars(#[trigger] shapes(shapes_in@)[i])
                <= usize::MAX,
    ensures
        match r {
            Some(n) => forall|i: int|
                0 <= i < shapes_in@.len() ==> shape_vars(#[trigger] shapes(shapes_in@)[i]) == n,
            None => exists|i: int|
                0 <= i < shapes_in@.len() && shape_vars(#[trigger] shapes(shapes_in@)[i])
                    != shape_vars(shapes_in@[0]@),
        },
{
    let mut vars: usize = 0;
    let mut i: usize = 0;
    while i < shapes_in.len()
        invariant
            i <= shapes_in@.len(),
            forall|i: int|
                0 <= i < shapes_in@.len() ==> positive(#[trigger] shapes(shapes_in@)[i]),
            forall|i: int|
                0 <= i < shapes_in@.len() ==> shape_vars(#[trigger] shapes(shapes_in@)[i])
                    <= usize::MAX,
            i > 0 ==> vars == shape_vars(shapes_in@[0]@),
            forall|j: int|
                0 <= j < i ==> shape_vars(#[trigger] shapes(shapes_in@)[j]) == vars,
        decreases shapes_in@.len() - i,
    {
        assert(positive(shapes(shapes_in@)[i as int]));
        assert(shape_vars(shapes(shapes_in@)[i as int]) <= usize::MAX);
        let n = vars_of(shapes_in[i].as_slice());
        if i > 0 && n != vars {
            assert(shape_vars(shapes(shapes_in@)[i as int]) != shape_vars(shapes_in@[0]@));
            return None;
        }
        vars = n;
        i = i + 1;
    }
    Some(vars)
}

fn vars_of(s: &[usize]) -> (r: usize)
    requires
        positive(s@),
        shape_vars(s@) <= usize::MAX,
    ensures
        r == shape_vars(s@),
{
    let mut n: usize = 0;
    let mut i: usize = 0;
    while i < s.len()
        invariant
            positive(s@),
            shape_vars(s@) <= usize::MAX,
            i <= s@.len(),
            n == shape_vars(s@.take(i as int)),
        decreases s@.len() - i,
    {
        proof {
            lemma_shape_vars_prefix(s@, i + 1);
            assert(s@.take(i + 1).drop_last() =~= s@.take(i as int));
            assert(s@[i as int] > 0);
        }
        n = n + ceil_log2(s[i]);
        i = i + 1;
    }
    assert(s@.take(s@.len() as int) =~= s@);
    n
}

proof fn lemma_shape_vars_prefix(s: Seq<usize>, i: int)
    requires
        0 <= i <= s.len(),
    ensures
        shape_vars(s.take(i)) <= shape_vars(s),
    decreases s.len(),
{
    if i < s.len() {
        lemma_shape_vars_prefix(s.drop_last(), i);
        assert(s.drop_last().take(i) =~= s.take(i));
    } else {
        assert(s.take(i) =~= s);
    }
}

/// The set-up of a layer that looks up its values: the shapes can be told.
pub open spec fn lookup_shapes_ok(s: Seq<Vec<usize>>) -> bool {
    &&& s.len() > 0
    &&& forall|i: int| 0 <= i < s.len() ==> positive(#[trigger] shapes(s)[i])
    &&& forall|i: int| 0 <= i < s.len() ==> shape_vars(#[trigger] shapes(s)[i]) <= usize::MAX
}

/// All shapes have the same number of variables.
pub open spec fn same_vars(s: Seq<Vec<usize>>) -> bool {
    forall|i: int|
        0 <= i < s.len() ==> shape_vars(#[trigger] shapes(s)[i]) == shape_vars(s[0]@)
}

/// What the set-up of an activation gives.
pub open spec fn activation_step_is(
    a: Activation,
    id: NodeId,
    aux: ContextAux,
    ctx: ActivationCtx,
    out: ContextAux,
) -> bool {
    &&& ctx.op == a
    &&& ctx.node_id == id
    &&& ctx.num_vars == shape_vars(aux.last_output_shape@[0]@)
    &&& out.tables@ == with_table(aux.tables@, TableType::Relu)
    &&& out.last_output_shape == aux.last_output_shape
    &&& out.model_polys@.len() == 0
}

/// The columns of the activation of `a` with the result `b`.
pub open spec fn activation_columns(
    a: Seq<Element>,
    b: Seq<Element>,
    c: ActivationColumns,
) -> bool {
    let n = if a.len() <= b.len() {
        a.len()
    } else {
        b.len()
    };
    &&& fviews2(c.columns@) == seq![fints(a.take(n as int)), fints(b.take(n as int))]
    &&& c.merged@.len() == n
    &&& forall|i: int| 0 <= i < n ==> #[trigger] c.merged@[i] == a[i] + COLUMN_SEPARATOR * b[i]
}

impl Activation {
    /// An activation has as many outputs as inputs.
    pub fn num_outputs(&self, num_inputs: usize) -> (r: usize)
        ensures
            r == num_inputs,
    {
        num_inputs
    }

    /// Describes the layer.
    pub fn describe(&self) -> (r: String)
        ensures
            r@ == "RELU: "@ + decimal(256),
    {
        let mut s = String::from_str("RELU: ");
        append_decimal(&mut s, Relu::poly_len());
        s
    }

    /// The shapes of the outputs: those of the inputs.
    pub fn output_shapes(&self, input_shapes: &[Vec<usize>], _padding_mode: PaddingMode) -> (r: Vec<
        Vec<usize>,
    >)
        ensures
            shapes(r@) == shapes(input_shapes@),
    {
        copy_shapes(input_shapes)
    }

    pub fn is_provable(&self) -> (r: bool)
        ensures
            r,
    {
        true
    }

    /// Runs the layer on its input. Fails where there is not one input, or where it has not one
    /// entry for each place of its shape.
    pub fn evaluate(&self, inputs: &[&Tensor<Element>]) -> (r: Result<
        LayerOut<Element>,
        ProvableOpError,
    >)
        ensures
            inputs@.len() != 1 ==> parameter_error(r, "Activation layer expects one input"@),
            inputs@.len() == 1 && !inputs@[0]@.plain() ==> generic_error(
                r,
                "The input has not one entry for each place"@,
            ),
            inputs@.len() == 1 && inputs@[0]@.plain() ==> r is Ok && r->Ok_0.single(
                relu_out(inputs@[0]@),
            ) && r->Ok_0.proving_data is None,
    {
        if inputs.len() != 1 {
            return parameter_err("Activation layer expects one input");
        }
        let input = inputs[0];
        if !input.is_plain() {
            return generic_err("The input has not one entry for each place");
        }
        let output = match self {
            Activation::Relu(relu) => relu.op(input),
        };
        Ok(single_output(output))
    }

    /// Sets up the layer. Fails where the input shapes differ in their numbers of variables.
    pub fn step_info(&self, id: NodeId, aux: ContextAux) -> (r: Result<
        (ActivationCtx, ContextAux),
        ProvableOpError,
    >)
        requires
            lookup_shapes_ok(aux.last_output_shape@),
        ensures
            !same_vars(aux.last_output_shape@) ==> generic_error(
                r,
                "All input shapes for activation must have the same number of variables"@,
            ),
            same_vars(aux.last_output_shape@) ==> r is Ok && activation_step_is(
                *self,
                id,
                aux,
                (r->Ok_0).0,
                (r->Ok_0).1,
            ),
    {
        let mut aux = aux;
        aux.insert_table(TableType::Relu);
        let num_vars = match common_vars(aux.last_output_shape.as_slice()) {
            Some(n) => n,
            None => {
                return generic_err(
                    "All input shapes for activation must have the same number of variables",
                );
            },
        };
        proof {
            assert(shape_vars(shapes(aux.last_output_shape@)[0]) == num_vars);
        }
        let out = ContextAux {
            tables: aux.tables,
            last_output_shape: aux.last_output_shape,
            model_polys: Vec::new(),
        };
        Ok((ActivationCtx { op: *self, node_id: id, num_vars }, out))
    }

    /// The columns that the activation of a tensor looks up: inputs and outputs.
    pub fn lookup_columns(&self, input: &Tensor<Element>, output: &Tensor<Element>) -> (r:
        ActivationColumns)
        requires
            forall|i: int|
                0 <= i < input@.data.len() && i < output@.data.len() ==> fits(
                    #[trigger] input@.data[i] + COLUMN_SEPARATOR * output@.data[i],
                ) && fits(COLUMN_SEPARATOR * output@.data[i]),
        ensures
            activation_columns(input@.data, output@.data, r),
    {
        let n = if input.data.len() <= output.data.len() {
            input.data.len()
        } else {
            output.data.len()
        };
        let ghost a = input@.data;
        let ghost b = output@.data;
        let mut one: Vec<GoldilocksExt2> = Vec::new();
        let mut two: Vec<GoldilocksExt2> = Vec::new();
        let mut merged: Vec<Element> = Vec::new();
        let mut i: usize = 0;
        while i < n
            invariant
                a == input@.data,
                b == output@.data,
                n <= a.len(),
                n <= b.len(),
                forall|i: int|
                    0 <= i < a.len() && i < b.len() ==> fits(
                        #[trigger] a[i] + COLUMN_SEPARATOR * b[i],
                    ) && fits(COLUMN_SEPARATOR * b[i]),
                i <= n,
                one.len() == i,
                two.len() == i,
                merged.len() == i,
                forall|j: int| 0 <= j < i ==> #[trigger] one[j]@ == fint(a[j] as int),
                forall|j: int| 0 <= j < i ==> #[trigger] two[j]@ == fint(b[j] as int),
                forall|j: int|
                    0 <= j < i ==> #[trigger] merged[j] == a[j] + COLUMN_SEPARATOR * b[j],
            decreases n - i,
        {
            assert(fits(a[i as int] + COLUMN_SEPARATOR * b[i as int]));
            one.push(to_field(input.data[i]));
            two.push(to_field(output.data[i]));
            merged.push(input.data[i] + COLUMN_SEPARATOR * output.data[i]);
            i = i + 1;
        }
        proof {
            assert(fviews(one@) =~= fints(a.take(n as int)));
            assert(fviews(two@) =~= fints(b.take(n as int)));
        }
        let ghost c1 = one@;
        let ghost c2 = two@;
        let mut columns: Vec<Vec<GoldilocksExt2>> = Vec::new();
        columns.push(one);
        columns.push(two);
        assert(fviews2(columns@) =~= seq![fviews(c1), fviews(c2)]);
        ActivationColumns { columns, merged }
    }

    /// Records the witness of the activation of node `id`, and the lookups into the table. Fails
    /// where the table was not expected: the witness is then recorded all the same.
    pub fn gen_lookup_witness<C>(
        &self,
        id: NodeId,
        gen: &mut LookupWitnessGen<C>,
        columns: ActivationColumns,
        commits: Vec<C>,
    ) -> (r: Result<(), ProvableOpError>)
        ensures
            ({
                let before = old(gen).new_lookups@;
                let after = lookups_view(final(gen).new_lookups@);
                let p = table_place(before, TableType::Relu);
                let witnesses = final(gen).logup_witnesses@;
                &&& witnesses.dom() == old(gen).logup_witnesses@.dom().insert(id)
                &&& forall|n: NodeId|
                    n != id && old(gen).logup_witnesses@.contains_key(n)
                        ==> #[trigger] witnesses[n] == old(gen).logup_witnesses@[n]
                &&& witnesses[id]@ == seq![
                    (LogUpWitness::Lookup {
                        commits,
                        column_evals: columns.columns,
                        columns_per_instance: 2,
                        table_type: TableType::Relu,
                    }),
                ]
                &&& if p == before.len() {
                    parameter_error(r, "No table of type Relu was expected"@) && after
                        == lookups_view(before)
                } else {
                    r is Ok && after == extended(lookups_view(before), p, columns.merged@)
                }
            }),
    {
        let ActivationColumns { columns, merged } = columns;
        let mut witnesses: Vec<LogUpWitness<C>> = Vec::new();
        witnesses.push(LogUpWitness::new_lookup(commits, columns, 2, TableType::Relu));
        gen.logup_witnesses.insert(id, witnesses);
        proof {
            lemma_table_place(gen.new_lookups@, TableType::Relu);
        }
        if !gen.extend_lookups(TableType::Relu, merged.as_slice()) {
            return parameter_err("No table of type Relu was expected");
        }
        Ok(())
    }

    /// Checks the number of lookup witnesses of an activation node.
    pub fn check_witnesses(node_id: NodeId, count: usize) -> (r: Result<(), ProvableOpError>)
        ensures
            count == 1 ==> r is Ok,
            count != 1 ==> generic_error(
                r,
                "Activation only requires a lookup into one table type, but node: "@ + decimal(
                    node_id as nat,
                ) + " had "@ + decimal(count as nat) + " lookup witnesses"@,
            ),
    {
        if count == 1 {
            return Ok(());
        }
        let mut m = String::from_str(
            "Activation only requires a lookup into one table type, but node: ",
        );
        append_decimal(&mut m, node_id);
        m.append(" had ");
        append_decimal(&mut m, count);
        m.append(" lookup witnesses");
        generic_err(m.as_str())
    }
}

/// The claims that an activation ends with: the input column as the lookup left it, the output
/// column as the accumulation left it.
pub open spec fn activation_outcome(
    o: ActivationOutcome,
    input: ClaimView,
    accumulated: ClaimView,
) -> bool {
    &&& cviews(o.witness_claims@) == seq![input, accumulated]
    &&& o.next_claim@ == input
}

impl ActivationCtx {
    /// The challenges of the table of the activation. Fails where it has none.
    pub fn challenges(&self, storage: &ChallengeStorage) -> (r: Result<
        (GoldilocksExt2, GoldilocksExt2),
        ProvableOpError,
    >)
        ensures
            match find_challenge(storage.challenge_map@, TableType::Relu.label()) {
                Some(c) => r == Ok::<(GoldilocksExt2, GoldilocksExt2), ProvableOpError>(
                    (storage.constant_challenge, c),
                ),
                None => generic_error(
                    r,
                    "Couldn't get challenges for LookupType: "@ + TableType::Relu.label(),
                ),
            },
    {
        storage.lookup_challenges(TableType::Relu)
    }

    /// The shapes of the outputs: those of the inputs.
    pub fn output_shapes(&self, input_shapes: &[Vec<usize>], _padding_mode: PaddingMode) -> (r: Vec<
        Vec<usize>,
    >)
        ensures
            shapes(r@) == shapes(input_shapes@),
    {
        copy_shapes(input_shapes)
    }

    /// The claims about the output that are accumulated into one: that of the layer after, and
    /// those of the lookup but for the first.
    pub fn claims_to_accumulate(
        last_claim: &Claim<GoldilocksExt2>,
        lookup_claims: &[Claim<GoldilocksExt2>],
    ) -> (r: Vec<Claim<GoldilocksExt2>>)
        requires
            lookup_claims@.len() >= 1,
        ensures
            cviews(r@) == seq![last_claim@] + cviews(lookup_claims@).skip(1),
    {
        let mut r: Vec<Claim<GoldilocksExt2>> = Vec::new();
        r.push(last_claim.copy());
        let mut i: usize = 1;
        let ghost want = seq![last_claim@] + cviews(lookup_claims@).skip(1);
        while i < lookup_claims.len()
            invariant
                1 <= i <= lookup_claims@.len(),
                want == seq![last_claim@] + cviews(lookup_claims@).skip(1),
                r.len() == i,
                forall|j: int| 0 <= j < i ==> #[trigger] r@[j]@ == want[j],
            decreases lookup_claims@.len() - i,
        {
            r.push(lookup_claims[i].copy());
            i = i + 1;
        }
        assert(cviews(r@) =~= want);
        r
    }

    /// The claims that are left at the end: for the commitments, the first claim of the lookup and
    /// the accumulated one; about the input, the first claim of the lookup.
    pub fn finish(
        input_claim: &Claim<GoldilocksExt2>,
        accumulated: &Claim<GoldilocksExt2>,
    ) -> (r: ActivationOutcome)
        ensures
            activation_outcome(r, input_claim@, accumulated@),
    {
        let mut witness_claims: Vec<Claim<GoldilocksExt2>> = Vec::new();
        witness_claims.push(input_claim.copy());
        witness_claims.push(accumulated.copy());
        assert(cviews(witness_claims@) =~= seq![input_claim@, accumulated@]);
        ActivationOutcome { witness_claims, next_claim: input_claim.copy() }
    }
}

} // verus!
