//! Witnesses of the lookup arguments.
use crate::field::{GoldilocksExt2, fviews, fviews2};
use crate::iop::{ChallengeStorage, find_challenge};
use crate::layers::provable::NodeId;
use crate::lookup::context::TableType;
use crate::lookup::logup_gkr::error::LogUpError;
use crate::quantization::Element;
use crate::text::joined;
use std::collections::HashMap;
use vstd::prelude::*;
use vstd::string::*;

verus! {

/// The witness of a lookup argument: what goes into it but for the challenges. `C` is what the
/// commitment scheme holds of a committed polynomial.
#[derive(Clone, Debug)]
pub enum LogUpWitness<C> {
    /// Lookups into a table. Several instances may be batched: `columns_per_instance` tells how
    /// many columns belong to one.
    Lookup {
        commits: Vec<C>,
        column_evals: Vec<Vec<GoldilocksExt2>>,
        columns_per_instance: usize,
        table_type: TableType,
    },
    /// The table itself.
    Table {
        multiplicity_commit: C,
        multiplicity_evals: Vec<GoldilocksExt2>,
        column_evals: Vec<Vec<GoldilocksExt2>>,
        table_type: TableType,
    },
}

/// The input of the lookup argument: a witness together with the challenges.
#[derive(Clone, Debug)]
pub enum LogUpInput {
    Lookup {
        column_evals: Vec<Vec<GoldilocksExt2>>,
        constant_challenge: GoldilocksExt2,
        column_separation_challenge: GoldilocksExt2,
        columns_per_instance: usize,
    },
    Table {
        column_evals: Vec<Vec<GoldilocksExt2>>,
        multiplicities: Vec<GoldilocksExt2>,
        constant_challenge: GoldilocksExt2,
        column_separation_challenge: GoldilocksExt2,
    },
}

impl LogUpInput {
    pub open spec fn columns(self) -> Seq<Vec<GoldilocksExt2>> {
        match self {
            LogUpInput::Lookup { column_evals, .. } => column_evals@,
            LogUpInput::Table { column_evals, .. } => column_evals@,
        }
    }

    /// The columns that are looked up, or those of the table.
    pub fn column_evals(&self) -> (r: &Vec<Vec<GoldilocksExt2>>)
        ensures
            r@ == self.columns(),
    {
        match self {
            LogUpInput::Lookup { column_evals, .. } => column_evals,
            LogUpInput::Table { column_evals, .. } => column_evals,
        }
    }
}

/// The columns of a sequence of columns, copied.
pub fn copy_columns(columns: &Vec<Vec<GoldilocksExt2>>) -> (r: Vec<Vec<GoldilocksExt2>>)
    ensures
        fviews2(r@) == fviews2(columns@),
        r@.len() == columns@.len(),
{
    let mut r: Vec<Vec<GoldilocksExt2>> = Vec::new();
    let mut i: usize = 0;
    while i < columns.len()
        invariant
            i <= columns.len(),
            r.len() == i,
            forall|j: int| 0 <= j < i ==> fviews((#[trigger] r[j])@) == fviews(columns[j]@),
        decreases columns.len() - i,
    {
        r.push(vstd::slice::slice_to_vec(columns[i].as_slice()));
        i = i + 1;
    }
    assert(fviews2(r@) =~= fviews2(columns@));
    r
}

impl<C> LogUpWitness<C> {
    /// Creates the witness of lookups.
    pub fn new_lookup(
        commits: Vec<C>,
        column_evals: Vec<Vec<GoldilocksExt2>>,
        columns_per_instance: usize,
        table_type: TableType,
    ) -> (r: LogUpWitness<C>)
        ensures
            r == (LogUpWitness::Lookup { commits, column_evals, columns_per_instance, table_type }),
    {
        LogUpWitness::Lookup { commits, column_evals, columns_per_instance, table_type }
    }

    /// Creates the witness of a table.
    pub fn new_table(
        multiplicity_commit: C,
        multiplicity_evals: Vec<GoldilocksExt2>,
        column_evals: Vec<Vec<GoldilocksExt2>>,
        table_type: TableType,
    ) -> (r: LogUpWitness<C>)
        ensures
            r == (LogUpWitness::Table {
                multiplicity_commit,
                multiplicity_evals,
                column_evals,
                table_type,
            }),
    {
        LogUpWitness::Table { multiplicity_commit, multiplicity_evals, column_evals, table_type }
    }

    pub open spec fn table(self) -> TableType {
        match self {
            LogUpWitness::Lookup { table_type, .. } => table_type,
            LogUpWitness::Table { table_type, .. } => table_type,
        }
    }

    /// The table that is looked up.
    pub fn table_type(&self) -> (r: TableType)
        ensures
            r == self.table(),
    {
        match self {
            LogUpWitness::Lookup { table_type, .. } => *table_type,
            LogUpWitness::Table { table_type, .. } => *table_type,
        }
    }

    /// The commitments of the witness, in the order in which they enter the transcript: one for
    /// each column that is looked up, or that of the multiplicities of a table.
    pub fn get_commitments(&self) -> (r: Vec<&C>)
        ensures
            match *self {
                LogUpWitness::Lookup { commits, .. } => r@.len() == commits@.len() && forall|i: int|
                    0 <= i < commits@.len() ==> *#[trigger] r@[i] == commits@[i],
                LogUpWitness::Table { multiplicity_commit, .. } => r@.len() == 1 && *r@[0]
                    == multiplicity_commit,
            },
    {
        let mut r: Vec<&C> = Vec::new();
        match self {
            LogUpWitness::Lookup { commits, .. } => {
                let mut i: usize = 0;
                while i < commits.len()
                    invariant
                        i <= commits.len(),
                        r.len() == i,
                        forall|j: int| 0 <= j < i ==> *#[trigger] r@[j] == commits@[j],
                    decreases commits.len() - i,
                {
                    r.push(&commits[i]);
                    i = i + 1;
                }
            },
            LogUpWitness::Table { multiplicity_commit, .. } => {
                r.push(multiplicity_commit);
            },
        }
        r
    }

    /// The input of the lookup argument, with the challenges of the table. Fails where there are
    /// no challenges for the table.
    pub fn get_logup_input(&self, challenge_storage: &ChallengeStorage) -> (r: Result<
        LogUpInput,
        LogUpError,
    >)
        ensures
            match find_challenge(challenge_storage.challenge_map@, self.table().label()) {
                None => r matches Err(LogUpError::ParamterError(m)) && m@
                    == "No challenges for table type: "@ + self.table().label(),
                Some(challenge) => match *self {
                    LogUpWitness::Lookup { column_evals, columns_per_instance, .. } => {
                        &&& r matches Ok(
                            LogUpInput::Lookup {
                                column_evals: c,
                                constant_challenge,
                                column_separation_challenge,
                                columns_per_instance: n,
                            },
                        )
                        &&& fviews2(c@) == fviews2(column_evals@)
                        &&& constant_challenge == challenge_storage.constant_challenge
                        &&& column_separation_challenge == challenge
                        &&& n == columns_per_instance
                    },
                    LogUpWitness::Table { column_evals, multiplicity_evals, .. } => {
                        &&& r matches Ok(
                            LogUpInput::Table {
                                column_evals: c,
                                multiplicities,
                                constant_challenge,
                                column_separation_challenge,
                            },
                        )
                        &&& fviews2(c@) == fviews2(column_evals@)
                        &&& fviews(multiplicities@) == fviews(multiplicity_evals@)
                        &&& constant_challenge == challenge_storage.constant_challenge
                        &&& column_separation_challenge == challenge
                    },
                },
            },
    {
        let name = self.table_type().name();
        let (constant_challenge, column_separation_challenge) =
            match challenge_storage.get_challenges_by_name(&name) {
            Some(c) => c,
            None => {
                return Err(
                    LogUpError::ParamterError(
                        joined("No challenges for table type: ", name.as_str()),
                    ),
                );
            },
        };
        match self {
            LogUpWitness::Lookup { column_evals, columns_per_instance, .. } => Ok(
                LogUpInput::Lookup {
                    column_evals: copy_columns(column_evals),
                    constant_challenge,
                    column_separation_challenge,
                    columns_per_instance: *columns_per_instance,
                },
            ),
            LogUpWitness::Table { column_evals, multiplicity_evals, .. } => Ok(
                LogUpInput::Table {
                    column_evals: copy_columns(column_evals),
                    multiplicities: vstd::slice::slice_to_vec(multiplicity_evals.as_slice()),
                    constant_challenge,
                    column_separation_challenge,
                },
            ),
        }
    }
}

/// What the lookup argument needs of a run of the model: the values that are looked up in each
/// table, and the witnesses of each node.
#[derive(Debug)]
pub struct LookupWitnessGen<C> {
    pub new_lookups: Vec<(TableType, Vec<Element>)>,
    pub logup_witnesses: HashMap<NodeId, Vec<LogUpWitness<C>>>,
}

/// The place of the first entry for a table, or the number of entries where there is none.
pub open spec fn table_place(lookups: Seq<(TableType, Vec<Element>)>, table: TableType) -> int
    decreases lookups.len(),
{
    if lookups.len() == 0 || lookups[0].0 == table {
        0
    } else {
        1 + table_place(lookups.skip(1), table)
    }
}

/// The values that are looked up in each table, by content.
pub open spec fn lookups_view(lookups: Seq<(TableType, Vec<Element>)>) -> Seq<
    (TableType, Seq<Element>),
> {
    Seq::new(lookups.len(), |i: int| (lookups[i].0, lookups[i].1@))
}

/// The values of the table at place `p` extended by `values`.
pub open spec fn extended(
    lookups: Seq<(TableType, Seq<Element>)>,
    p: int,
    values: Seq<Element>,
) -> Seq<(TableType, Seq<Element>)> {
    lookups.update(p, (lookups[p].0, lookups[p].1 + values))
}

pub proof fn lemma_table_place(lookups: Seq<(TableType, Vec<Element>)>, table: TableType)
    ensures
        0 <= table_place(lookups, table) <= lookups.len(),
        table_place(lookups, table) < lookups.len() ==> lookups[table_place(lookups, table)].0
            == table,
    decreases lookups.len(),
{
    if lookups.len() > 0 && lookups[0].0 != table {
        lemma_table_place(lookups.skip(1), table);
    }
}

impl<C> LookupWitnessGen<C> {
    /// Adds values that are looked up in a table. Tells whether the table is expected: where it is
    /// not, nothing changes.
    pub fn extend_lookups(&mut self, table: TableType, values: &[Element]) -> (known: bool)
        ensures
            final(self).logup_witnesses == old(self).logup_witnesses,
            ({
                let p = table_place(old(self).new_lookups@, table);
                &&& known == (p < old(self).new_lookups@.len())
                &&& lookups_view(final(self).new_lookups@) == if known {
                    extended(lookups_view(old(self).new_lookups@), p, values@)
                } else {
                    lookups_view(old(self).new_lookups@)
                }
            }),
    {
        let ghost before = self.new_lookups@;
        let mut i: usize = 0;
        proof {
            assert(before.skip(0) =~= before);
        }
        while i < self.new_lookups.len()
            invariant
                self.new_lookups@ == before,
                self.logup_witnesses == old(self).logup_witnesses,
                before == old(self).new_lookups@,
                i <= before.len(),
                table_place(before, table) == i + table_place(before.skip(i as int), table),
            decreases before.len() - i,
        {
            proof {
                assert(before.skip(i as int).skip(1) =~= before.skip(i + 1));
                assert(before.skip(i as int)[0] == before[i as int]);
            }
            if self.new_lookups[i].0 == table {
                let mut data = vstd::slice::slice_to_vec(self.new_lookups[i].1.as_slice());
                let mut j: usize = 0;
                while j < values.len()
                    invariant
                        self.new_lookups@ == before,
                        self.logup_witnesses == old(self).logup_witnesses,
                        j <= values@.len(),
                        data@ == before[i as int].1@ + values@.take(j as int),
                    decreases values@.len() - j,
                {
                    data.push(values[j]);
                    assert(data@ =~= before[i as int].1@ + values@.take(j + 1));
                    j = j + 1;
                }
                assert(values@.take(values@.len() as int) =~= values@);
                self.new_lookups.set(i, (table, data));
                assert(lookups_view(self.new_lookups@) =~= extended(
                    lookups_view(before),
                    i as int,
                    values@,
                ));
                return true;
            }
            i = i + 1;
        }
        false
    }
}

} // verus!
