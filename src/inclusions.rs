//! The accounts that the serving layer shows in full to every caller.
use crate::auth::{parse_u64, parsed_u64};
use std::collections::HashSet;
use vstd::prelude::*;
use vstd::std_specs::hash::group_hash_axioms;

verus! {

broadcast use group_hash_axioms;

/// Why a list of account ids could not be read.
#[derive(Clone, Debug, PartialEq, Eq)]
pub enum Error {
    /// A line is not a decimal account id.
    InvalidInclusionFileLine(String),
}

/// A set of account ids.
#[derive(Debug)]
pub struct Inclusions {
    ids: HashSet<u64>,
}

impl View for Inclusions {
    type V = Set<u64>;

    closed spec fn view(&self) -> Set<u64> {
        self.ids@
    }
}

impl Inclusions {
    /// The set of ids written one per line; a line that is not a decimal id
    /// is refused.
    pub fn from_lines(lines: &Vec<String>) -> (r: Result<Inclusions, Error>)
        ensures
            (forall|i: int| 0 <= i < lines@.len() ==> parsed_u64(#[trigger] lines@[i]@) is Some) ==> (r matches Ok(inc)
                && inc@ == lines@.map_values(|l: String| parsed_u64(l@)->Some_0).to_set()),
            forall|i: int|
                0 <= i < lines@.len() && parsed_u64(#[trigger] lines@[i]@) is None && (forall|j: int|
                    0 <= j < i ==> parsed_u64(lines@[j]@) is Some) ==> (r matches Err(Error::InvalidInclusionFileLine(s))
                    && s@ == lines@[i]@),
    {
        let mut ids: HashSet<u64> = HashSet::new();
        let mut i: usize = 0;
        while i < lines.len()
            invariant
                i <= lines@.len(),
                forall|j: int| 0 <= j < i ==> parsed_u64(#[trigger] lines@[j]@) is Some,
                ids@ == lines@.take(i as int).map_values(|l: String| parsed_u64(l@)->Some_0).to_set(),
            decreases lines@.len() - i,
        {
            match parse_u64(lines[i].as_str()) {
                Some(id) => {
                    let ghost before = ids@;
                    ids.insert(id);
                    proof {
                        let f = |l: String| parsed_u64(l@)->Some_0;
                        assert(lines@.take(i + 1).map_values(f) =~= lines@.take(i as int).map_values(f).push(id));
                        lines@.take(i as int).map_values(f).lemma_push_to_set_commute(id);
                    }
                },
                None => {
                    proof {
                        assert forall|k: int|
                            0 <= k < lines@.len() && parsed_u64(#[trigger] lines@[k]@) is None && (forall|j: int|
                                0 <= j < k ==> parsed_u64(lines@[j]@) is Some) implies k == i by {
                            if k > i {
                                assert(parsed_u64(lines@[i as int]@) is Some);
                            }
                        }
                    }
                    return Err(Error::InvalidInclusionFileLine(lines[i].clone()));
                },
            }
            i = i + 1;
        }
        assert(lines@.take(lines@.len() as int) == lines@);
        Ok(Inclusions { ids })
    }

    /// Whether `id` is in the set.
    pub fn contains(&self, id: u64) -> (r: bool)
        ensures
            r == self@.contains(id),
    {
        self.ids.contains(&id)
    }
}

} // verus!
