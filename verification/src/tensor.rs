//! Tensors: entries in row-major order, with a shape.
use crate::arith::{lemma_npow2, npow2};
use crate::field::{GoldilocksExt2, fint, fviews};
use crate::quantization::{Element, fints, to_field};
use crate::shape::{
    checked_product, lemma_product1, lemma_product2, next_power_of_two_shape, positive,
    pow2_shape, pow2_shape_fits, product, same_shape, source, source_index, within,
};
use vstd::arithmetic::div_mod::*;
use vstd::arithmetic::mul::*;
use vstd::prelude::*;
use vstd::slice::slice_to_vec;

verus! {

/// A tensor.
///
/// The shape is that under which the tensor takes part in a computation. For a convolution filter
/// that has been adapted to the transform-based convolution it differs from the shape of the
/// entries, which is kept apart.
#[derive(Clone, Debug, PartialEq)]
pub struct Tensor<T> {
    pub data: Vec<T>,
    pub shape: Vec<usize>,
    /// The shape of the entries.
    pub og_shape: Vec<usize>,
}

/// The mathematical content of a tensor.
#[verifier::ext_equal]
pub struct TensorView<T> {
    pub data: Seq<T>,
    pub shape: Seq<usize>,
    pub og_shape: Seq<usize>,
}

impl<T> View for Tensor<T> {
    type V = TensorView<T>;

    open spec fn view(&self) -> TensorView<T> {
        TensorView { data: self.data@, shape: self.shape@, og_shape: self.og_shape@ }
    }
}

/// The tensor of the given shape and entries.
pub open spec fn tensor<T>(shape: Seq<usize>, data: Seq<T>) -> TensorView<T> {
    TensorView { data, shape, og_shape: shape }
}

impl<T> TensorView<T> {
    /// There is one entry for each place of the shape.
    pub open spec fn plain(self) -> bool {
        &&& self.og_shape == self.shape
        &&& self.data.len() == product(self.shape)
    }
}

/// The contents of a sequence of tensors.
pub open spec fn tviews<T>(s: Seq<Tensor<T>>) -> Seq<TensorView<T>> {
    Seq::new(s.len(), |i: int| s[i]@)
}

/// Dimension `i` of a shape, or one where the shape has fewer dimensions.
pub open spec fn dim_or_one(s: Seq<usize>, i: int) -> usize {
    if i < s.len() {
        s[i]
    } else {
        1
    }
}

/// The entries of a tensor of shape `small`, padded with `zero` to the shape `big`.
pub open spec fn padded<T>(data: Seq<T>, small: Seq<usize>, big: Seq<usize>, zero: T) -> Seq<T> {
    Seq::new(
        product(big),
        |t: int|
            match source(small, big, t as nat) {
                Some(q) => data[q as int],
                None => zero,
            },
    )
}

/// The number of rows of a matrix, or of a filter laid out as a matrix.
pub open spec fn rows_2d(s: Seq<usize>) -> int {
    if s.len() == 2 {
        s[0] as int
    } else {
        s[0] * s[2] * s[3]
    }
}

/// The number of rows can be told.
pub open spec fn has_rows_2d(s: Seq<usize>) -> bool {
    &&& s.len() == 2 || s.len() == 4
    &&& rows_2d(s) <= usize::MAX
    &&& s.len() == 4 ==> s[0] * s[2] <= usize::MAX
}

/// The number of columns can be told.
pub open spec fn has_cols_2d(s: Seq<usize>) -> bool {
    &&& s.len() == 2 || s.len() == 4
    &&& cols_2d(s) <= usize::MAX
    &&& s.len() == 4 ==> s[1] * s[2] <= usize::MAX
}

/// The number of columns of a matrix, or of a filter laid out as a matrix.
pub open spec fn cols_2d(s: Seq<usize>) -> int {
    if s.len() == 2 {
        s[1] as int
    } else {
        s[1] * s[2] * s[3]
    }
}

impl<T> Tensor<T> {
    /// Creates a tensor of the given shape and entries.
    pub fn new(shape: Vec<usize>, data: Vec<T>) -> (r: Self)
        requires
            product(shape@) == data@.len(),
        ensures
            r@ == tensor(shape@, data@),
            r@.plain(),
    {
        let og_shape = slice_to_vec(shape.as_slice());
        Tensor { data, shape, og_shape }
    }

    /// Whether there is one entry for each place of the shape.
    pub fn is_plain(&self) -> (r: bool)
        ensures
            r == self@.plain(),
    {
        if !same_shape(self.og_shape.as_slice(), self.shape.as_slice()) {
            return false;
        }
        let n = self.data.len();
        match checked_product(self.shape.as_slice()) {
            Some(p) => p == n,
            None => false,
        }
    }

    pub fn get_shape(&self) -> (r: Vec<usize>)
        ensures
            r@ == self@.shape,
    {
        slice_to_vec(self.shape.as_slice())
    }

    /// The shape of the entries.
    pub fn real_shape(&self) -> (r: Vec<usize>)
        ensures
            r@ == self@.og_shape,
    {
        slice_to_vec(self.og_shape.as_slice())
    }

    pub fn get_data(&self) -> (r: &[T])
        ensures
            r@ == self@.data,
    {
        self.data.as_slice()
    }

    /// The number of filters.
    pub fn kw(&self) -> (r: usize)
        requires
            self@.shape.len() >= 1,
        ensures
            r == self@.shape[0],
    {
        self.shape[0]
    }

    /// The number of input channels of a filter.
    pub fn kx(&self) -> (r: usize)
        requires
            self@.shape.len() >= 2,
        ensures
            r == self@.shape[1],
    {
        self.shape[1]
    }

    /// The width of a filter.
    pub fn nw(&self) -> (r: usize)
        requires
            self@.shape.len() >= 3,
        ensures
            r == self@.shape[2],
    {
        self.shape[2]
    }

    /// The width of a filter before it was adapted to the transform-based convolution.
    pub fn real_nw(&self) -> (r: usize)
        requires
            self@.og_shape.len() >= 3,
        ensures
            r == self@.og_shape[2],
    {
        self.og_shape[2]
    }

    /// The number of entries of one channel of a filter.
    pub fn filter_size(&self) -> (r: usize)
        requires
            self@.shape.len() >= 3,
            self@.shape[2] * self@.shape[2] <= usize::MAX,
        ensures
            r == self@.shape[2] * self@.shape[2],
    {
        self.shape[2] * self.shape[2]
    }

    /// The dimensions of the shape, up to four; those that are missing count as one.
    pub fn get4d(&self) -> (r: (usize, usize, usize, usize))
        ensures
            r.0 == dim_or_one(self@.shape, 0),
            r.1 == dim_or_one(self@.shape, 1),
            r.2 == dim_or_one(self@.shape, 2),
            r.3 == dim_or_one(self@.shape, 3),
    {
        let n = self.shape.len();
        (
            if n > 0 {
                self.shape[0]
            } else {
                1
            },
            if n > 1 {
                self.shape[1]
            } else {
                1
            },
            if n > 2 {
                self.shape[2]
            } else {
                1
            },
            if n > 3 {
                self.shape[3]
            } else {
                1
            },
        )
    }

    /// The number of rows of a matrix, or of a filter laid out as a matrix.
    pub fn nrows_2d(&self) -> (r: usize)
        requires
            has_rows_2d(self@.shape),
        ensures
            r == rows_2d(self@.shape),
    {
        if self.shape.len() == 2 {
            self.shape[0]
        } else {
            self.shape[0] * self.shape[2] * self.shape[3]
        }
    }

    /// The number of columns of a matrix, or of a filter laid out as a matrix.
    pub fn ncols_2d(&self) -> (r: usize)
        requires
            has_cols_2d(self@.shape),
        ensures
            r == cols_2d(self@.shape),
    {
        if self.shape.len() == 2 {
            self.shape[1]
        } else {
            self.shape[1] * self.shape[2] * self.shape[3]
        }
    }
}

impl<T: Copy> Tensor<T> {
    /// A tensor with the same content.
    pub fn copy(&self) -> (r: Self)
        ensures
            r@ == self@,
    {
        Tensor {
            data: slice_to_vec(self.data.as_slice()),
            shape: slice_to_vec(self.shape.as_slice()),
            og_shape: slice_to_vec(self.og_shape.as_slice()),
        }
    }

    /// The tensor of one dimension with the same entries.
    pub fn flatten(&self) -> (r: Self)
        ensures
            r@ == tensor(seq![self@.data.len() as usize], self@.data),
            r@.plain(),
    {
        let mut shape: Vec<usize> = Vec::new();
        shape.push(self.data.len());
        proof {
            lemma_product1(shape@);
        }
        assert(shape@ =~= seq![self@.data.len() as usize]);
        Tensor::new(shape, slice_to_vec(self.data.as_slice()))
    }

    /// Pads the tensor with `zero` up to the given shape.
    pub fn pad_with(&self, big: &[usize], zero: T) -> (r: Self)
        requires
            self@.plain(),
            within(self@.shape, big@),
            positive(big@),
            product(big@) <= usize::MAX,
        ensures
            r@ == tensor(big@, padded(self@.data, self@.shape, big@, zero)),
            r@.plain(),
    {
        let n = match checked_product(big) {
            Some(n) => n,
            None => 0,
        };
        let mut data: Vec<T> = Vec::new();
        let mut t: usize = 0;
        while t < n
            invariant
                t <= n,
                n == product(big@),
                self@.plain(),
                within(self@.shape, big@),
                positive(big@),
                data.len() == t,
                forall|i: int|
                    0 <= i < t ==> #[trigger] data[i] == padded(
                        self@.data,
                        self@.shape,
                        big@,
                        zero,
                    )[i],
            decreases n - t,
        {
            let x = match source_index(self.shape.as_slice(), big, t) {
                Some(q) => self.data[q],
                None => zero,
            };
            data.push(x);
            t = t + 1;
        }
        assert(data@ =~= padded(self@.data, self@.shape, big@, zero));
        Tensor::new(slice_to_vec(big), data)
    }
}

impl Tensor<Element> {
    /// The tensor of the given shape whose entries are all zero.
    pub fn zeros(shape: Vec<usize>) -> (r: Self)
        requires
            product(shape@) <= usize::MAX,
        ensures
            r@ == tensor(shape@, Seq::new(product(shape@), |i: int| 0i128)),
            r@.plain(),
    {
        let n = match checked_product(shape.as_slice()) {
            Some(n) => n,
            None => 0,
        };
        let mut data: Vec<Element> = Vec::new();
        let mut i: usize = 0;
        while i < n
            invariant
                i <= n,
                data.len() == i,
                forall|j: int| 0 <= j < i ==> #[trigger] data[j] == 0,
            decreases n - i,
        {
            data.push(0);
            i = i + 1;
        }
        assert(data@ =~= Seq::new(product(shape@), |i: int| 0i128));
        Tensor::new(shape, data)
    }

    /// Pads each dimension with zeros up to the next power of two.
    pub fn pad_next_power_of_two(&self) -> (r: Self)
        requires
            self@.plain(),
            pow2_shape_fits(self@.shape),
            product(pow2_shape(self@.shape)) <= usize::MAX,
        ensures
            r@ == tensor(
                pow2_shape(self@.shape),
                padded(self@.data, self@.shape, pow2_shape(self@.shape), 0),
            ),
            r@.plain(),
    {
        let big = next_power_of_two_shape(self.shape.as_slice());
        proof {
            lemma_pow2_shape(self@.shape);
        }
        self.pad_with(big.as_slice(), 0)
    }

    /// Pads the tensor with zeros up to the given shape.
    pub fn pad_to_shape(&mut self, big: Vec<usize>)
        requires
            old(self)@.plain(),
            within(old(self)@.shape, big@),
            positive(big@),
            product(big@) <= usize::MAX,
        ensures
            final(self)@ == tensor(big@, padded(old(self)@.data, old(self)@.shape, big@, 0)),
            final(self)@.plain(),
    {
        *self = self.pad_with(big.as_slice(), 0);
    }

    /// Pads a tensor of one dimension with zeros up to the given length.
    pub fn pad_1d(&self, new_len: usize) -> (r: Self)
        requires
            self@.plain(),
            self@.shape.len() == 1,
            self@.shape[0] <= new_len,
        ensures
            r@ == tensor(
                seq![new_len],
                self@.data + Seq::new((new_len - self@.data.len()) as nat, |i: int| 0i128),
            ),
            r@.plain(),
    {
        proof {
            lemma_product1(self@.shape);
        }
        let mut data = slice_to_vec(self.data.as_slice());
        let ghost n = data@.len();
        while data.len() < new_len
            invariant
                n <= data.len() <= new_len,
                n == self@.data.len(),
                data@ == self@.data + Seq::new((data@.len() - n) as nat, |i: int| 0i128),
            decreases new_len - data.len(),
        {
            data.push(0);
            assert(data@ =~= self@.data + Seq::new((data@.len() - n) as nat, |i: int| 0i128));
        }
        let mut shape: Vec<usize> = Vec::new();
        shape.push(new_len);
        proof {
            lemma_product1(shape@);
            assert(shape@ =~= seq![new_len]);
        }
        Tensor::new(shape, data)
    }

    /// Builds a matrix from its rows, which all have the same number of entries. Gives nothing
    /// where they do not, or where there is no row.
    pub fn matix_from_coeffs(rows: Vec<Vec<Element>>) -> (r: Option<Self>)
        ensures
            r is Some <==> rows@.len() > 0 && (forall|i: int|
                0 <= i < rows@.len() ==> (#[trigger] rows@[i])@.len() == rows@[0]@.len()) && rows@.len()
                * rows@[0]@.len() <= usize::MAX,
            r is Some ==> {
                let t = r->0@;
                &&& t.plain()
                &&& t.shape == seq![rows@.len() as usize, rows@[0]@.len() as usize]
                &&& forall|i: int, j: int|
                    0 <= i < rows@.len() && 0 <= j < rows@[0]@.len() ==> t.data[i
                        * rows@[0]@.len() + j] == #[trigger] rows@[i]@[j]
            },
    {
        if rows.len() == 0 {
            return None;
        }
        let n = rows.len();
        let m = rows[0].len();
        let mut i: usize = 0;
        while i < n
            invariant
                n == rows.len(),
                n > 0,
                m == rows[0].len(),
                i <= n,
                forall|k: int| 0 <= k < i ==> (#[trigger] rows@[k])@.len() == m,
            decreases n - i,
        {
            if rows[i].len() != m {
                return None;
            }
            i = i + 1;
        }
        if n.checked_mul(m).is_none() {
            return None;
        }
        let mut data: Vec<Element> = Vec::new();
        i = 0;
        while i < n
            invariant
                n == rows.len(),
                forall|k: int| 0 <= k < n ==> (#[trigger] rows@[k])@.len() == m,
                i <= n,
                n * m <= usize::MAX,
                data.len() == i * m,
                forall|k: int, j: int|
                    0 <= k < i && 0 <= j < m ==> data[k * m + j] == #[trigger] rows@[k]@[j],
            decreases n - i,
        {
            let mut j: usize = 0;
            assert(rows@[i as int]@.len() == m);
            while j < m
                invariant
                    n == rows.len(),
                    i < n,
                    rows@[i as int]@.len() == m,
                    j <= m,
                    data.len() == i * m + j,
                    forall|k: int, l: int|
                        0 <= k < i && 0 <= l < m ==> data[k * m + l] == #[trigger] rows@[k]@[l],
                    forall|l: int|
                        0 <= l < j ==> data[i * m + l] == #[trigger] rows@[i as int]@[l],
                decreases m - j,
            {
                let ghost before = data@;
                data.push(rows[i][j]);
                proof {
                    assert forall|k: int, l: int| 0 <= k < i && 0 <= l < m implies data[k * m + l]
                        == #[trigger] rows@[k]@[l] by {
                        assert(0 <= k * m + l < i * m) by (nonlinear_arith)
                            requires
                                0 <= k,
                                k + 1 <= i,
                                0 <= l < m,
                        ;
                        assert(before[k * m + l] == rows@[k]@[l]);
                    }
                    assert(i * m >= 0) by (nonlinear_arith);
                }
                j = j + 1;
            }
            proof {
                assert((i + 1) * m == i * m + m) by (nonlinear_arith);
            }
            i = i + 1;
        }
        let mut shape: Vec<usize> = Vec::new();
        shape.push(n);
        shape.push(m);
        proof {
            lemma_product2(shape@);
            assert(shape@ =~= seq![rows@.len() as usize, rows@[0]@.len() as usize]);
        }
        Some(Tensor::new(shape, data))
    }

    /// The images in the field of the entries.
    pub fn evals_flat(&self) -> (r: Vec<GoldilocksExt2>)
        ensures
            fviews(r@) == fints(self@.data),
    {
        to_fields(self.data.as_slice())
    }
}

/// The images in the field of a sequence of values.
pub fn to_fields(data: &[Element]) -> (r: Vec<GoldilocksExt2>)
    ensures
        fviews(r@) == fints(data@),
{
    let mut r: Vec<GoldilocksExt2> = Vec::new();
    let mut i: usize = 0;
    while i < data.len()
        invariant
            i <= data@.len(),
            r.len() == i,
            forall|j: int| 0 <= j < i ==> #[trigger] r[j]@ == fint(data[j] as int),
        decreases data@.len() - i,
    {
        r.push(to_field(data[i]));
        i = i + 1;
    }
    assert(fviews(r@) =~= fints(data@));
    r
}

/// Raising the dimensions to powers of two shrinks none of them, and leaves none zero.
pub proof fn lemma_pow2_shape(s: Seq<usize>)
    requires
        pow2_shape_fits(s),
    ensures
        within(s, pow2_shape(s)),
        positive(pow2_shape(s)),
{
    assert forall|i: int| 0 <= i < s.len() implies #[trigger] s[i] <= pow2_shape(s)[i]
        && pow2_shape(s)[i] > 0 by {
        lemma_npow2(s[i] as nat);
        assert(npow2(s[i] as nat) <= usize::MAX);
    }
    assert forall|i: int| 0 <= i < s.len() implies #[trigger] pow2_shape(s)[i] > 0 by {
        assert(s[i] <= pow2_shape(s)[i] && pow2_shape(s)[i] > 0);
    }
}

} // verus!
