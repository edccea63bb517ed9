use vstd::prelude::*;
use crate::language::dnf::{negation_of, Dnf};

verus! {

/// The conjunctive clause contributed by one stable model: its true atoms,
/// followed by the negations of the atoms in its complement.
pub fn model_clause(atoms: Vec<String>, complement: &Vec<String>) -> (clause: Vec<String>)
    ensures
        clause@.map_values(|l: String| l@) == atoms@.map_values(|l: String| l@)
            + complement@.map_values(|l: String| negation_of(l@)),
{
    let mut clause = atoms;
    let ghost start = clause@.map_values(|l: String| l@);
    let mut i: usize = 0;
    while i < complement.len()
        invariant
            i <= complement@.len(),
            clause@.map_values(|l: String| l@) == start + complement@.take(i as int).map_values(|l: String| negation_of(l@)),
        decreases complement@.len() - i,
    {
        let ghost before = clause@;
        clause.push(Dnf::negate(complement[i].as_str()));
        proof {
            assert(clause@.map_values(|l: String| l@) =~= before.map_values(|l: String| l@).push(negation_of(complement@[i as int]@)));
            assert(complement@.take(i + 1).map_values(|l: String| negation_of(l@))
                =~= complement@.take(i as int).map_values(|l: String| negation_of(l@)).push(negation_of(complement@[i as int]@)));
        }
        i = i + 1;
    }
    assert(complement@.take(complement@.len() as int) =~= complement@);
    clause
}

} // verus!
