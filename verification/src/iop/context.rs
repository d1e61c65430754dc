//! What the set-up of a model hands from layer to layer.
use crate::lookup::context::TableType;
use crate::quantization::Element;
use crate::shape::shapes;
use vstd::prelude::*;

verus! {

/// What the set-up carries along: the tables that are needed, the shapes of the outputs of the
/// last layer, and the polynomials of the model that the layer commits to.
#[derive(Clone, Debug)]
pub struct ContextAux {
    pub tables: Vec<TableType>,
    pub last_output_shape: Vec<Vec<usize>>,
    pub model_polys: Vec<Vec<Element>>,
}

/// `t` added to the tables, once.
pub open spec fn with_table(tables: Seq<TableType>, t: TableType) -> Seq<TableType> {
    if tables.contains(t) {
        tables
    } else {
        tables.push(t)
    }
}

impl ContextAux {
    /// Adds a table, unless it is there already.
    pub fn insert_table(&mut self, t: TableType)
        ensures
            final(self).tables@ == with_table(old(self).tables@, t),
            final(self).last_output_shape == old(self).last_output_shape,
            final(self).model_polys == old(self).model_polys,
    {
        let mut i: usize = 0;
        while i < self.tables.len()
            invariant
                *self == *old(self),
                i <= self.tables@.len(),
                forall|j: int| 0 <= j < i ==> self.tables@[j] != t,
            decreases self.tables@.len() - i,
        {
            if self.tables[i] == t {
                assert(self.tables@[i as int] == t);
                return;
            }
            i = i + 1;
        }
        assert(!self.tables@.contains(t));
        self.tables.push(t);
    }
}

/// What the set-up keeps of a lookup table.
#[derive(Clone, Debug)]
pub struct TableCtx {
    pub table_type: TableType,
    pub num_vars: usize,
}

/// The shapes of the inputs and outputs of a layer, as given and padded.
#[derive(Clone, Debug)]
pub struct ShapeStep {
    pub unpadded_input_shape: Vec<Vec<usize>>,
    pub padded_input_shape: Vec<Vec<usize>>,
    pub unpadded_output_shape: Vec<Vec<usize>>,
    pub padded_output_shape: Vec<Vec<usize>>,
}

/// A sequence of shapes, copied.
pub fn copy_shapes(s: &[Vec<usize>]) -> (r: Vec<Vec<usize>>)
    ensures
        shapes(r@) == shapes(s@),
        r@.len() == s@.len(),
{
    let mut r: Vec<Vec<usize>> = Vec::new();
    let mut i: usize = 0;
    while i < s.len()
        invariant
            i <= s@.len(),
            r.len() == i,
            forall|j: int| 0 <= j < i ==> (#[trigger] r[j])@ == s[j]@,
        decreases s@.len() - i,
    {
        r.push(vstd::slice::slice_to_vec(s[i].as_slice()));
        i = i + 1;
    }
    assert(shapes(r@) =~= shapes(s@));
    r
}

impl ShapeStep {
    pub fn new(
        unpadded_input_shape: Vec<Vec<usize>>,
        padded_input_shape: Vec<Vec<usize>>,
        unpadded_output_shape: Vec<Vec<usize>>,
        padded_output_shape: Vec<Vec<usize>>,
    ) -> (r: Self)
        ensures
            r.unpadded_input_shape == unpadded_input_shape,
            r.padded_input_shape == padded_input_shape,
            r.unpadded_output_shape == unpadded_output_shape,
            r.padded_output_shape == padded_output_shape,
    {
        ShapeStep {
            unpadded_input_shape,
            padded_input_shape,
            unpadded_output_shape,
            padded_output_shape,
        }
    }

    /// The step after `last`: its inputs are the outputs of `last`.
    pub fn next_step(
        last: &ShapeStep,
        unpadded_output_shape: Vec<Vec<usize>>,
        padded_output_shape: Vec<Vec<usize>>,
    ) -> (r: Self)
        ensures
            shapes(r.unpadded_input_shape@) == shapes(last.unpadded_output_shape@),
            shapes(r.padded_input_shape@) == shapes(last.padded_output_shape@),
            r.unpadded_output_shape == unpadded_output_shape,
            r.padded_output_shape == padded_output_shape,
    {
        ShapeStep {
            unpadded_input_shape: copy_shapes(last.unpadded_output_shape.as_slice()),
            padded_input_shape: copy_shapes(last.padded_output_shape.as_slice()),
            unpadded_output_shape,
            padded_output_shape,
        }
    }
}

} // verus!
