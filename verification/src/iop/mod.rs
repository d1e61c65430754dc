//! The proof system around the layers.
pub mod claims;
pub mod context;
pub mod error;
pub mod fractions;
pub mod honest;
pub mod session;
pub mod shapes;
pub mod verify;

use crate::field::GoldilocksExt2;
use crate::layers::provable::error::{ProvableOpError, generic_err, generic_error};
use crate::lookup::context::TableType;
use crate::text::joined;
use vstd::prelude::*;

verus! {

/// The challenges of the lookup arguments: one that all tables share, and one for each table, by
/// the name of the table.
#[derive(Clone, Debug)]
pub struct ChallengeStorage {
    pub constant_challenge: GoldilocksExt2,
    pub challenge_map: Vec<(String, GoldilocksExt2)>,
}

/// The first entry of the map that has the given name.
pub open spec fn find_challenge(
    map: Seq<(String, GoldilocksExt2)>,
    name: Seq<char>,
) -> Option<GoldilocksExt2>
    decreases map.len(),
{
    if map.len() == 0 {
        None
    } else if map[0].0@ == name {
        Some(map[0].1)
    } else {
        find_challenge(map.skip(1), name)
    }
}

impl ChallengeStorage {
    /// The shared challenge and that of the table with the given name, if there is one.
    pub fn get_challenges_by_name(&self, name: &String) -> (r: Option<
        (GoldilocksExt2, GoldilocksExt2),
    >)
        ensures
            r == match find_challenge(self.challenge_map@, name@) {
                Some(c) => Some((self.constant_challenge, c)),
                None => None,
            },
    {
        let mut i: usize = 0;
        proof {
            assert(self.challenge_map@.skip(0) =~= self.challenge_map@);
        }
        while i < self.challenge_map.len()
            invariant
                i <= self.challenge_map.len(),
                find_challenge(self.challenge_map@, name@) == find_challenge(
                    self.challenge_map@.skip(i as int),
                    name@,
                ),
            decreases self.challenge_map.len() - i,
        {
            proof {
                assert(self.challenge_map@.skip(i as int).skip(1) =~= self.challenge_map@.skip(
                    i + 1,
                ));
                assert(self.challenge_map@.skip(i as int)[0] == self.challenge_map@[i as int]);
            }
            if self.challenge_map[i].0.eq(name) {
                return Some((self.constant_challenge, self.challenge_map[i].1));
            }
            i = i + 1;
        }
        None
    }
}

impl ChallengeStorage {
    /// The challenges of a table that a layer looks up values in. Fails where the table has none.
    pub fn lookup_challenges(&self, table: TableType) -> (r: Result<
        (GoldilocksExt2, GoldilocksExt2),
        ProvableOpError,
    >)
        ensures
            match find_challenge(self.challenge_map@, table.label()) {
                Some(c) => r == Ok::<(GoldilocksExt2, GoldilocksExt2), ProvableOpError>(
                    (self.constant_challenge, c),
                ),
                None => generic_error(
                    r,
                    "Couldn't get challenges for LookupType: "@ + table.label(),
                ),
            },
    {
        let name = table.name();
        match self.get_challenges_by_name(&name) {
            Some(c) => Ok(c),
            None => generic_err(
                joined("Couldn't get challenges for LookupType: ", name.as_str()).as_str(),
            ),
        }
    }
}

} // verus!
