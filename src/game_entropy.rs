use vstd::prelude::*;

use crate::game_constants::UniversePlane;
use crate::game_species::species_nop;
use crate::game_universe::{plane_view, wf_pattern, Universe};

verus! {

/// Relies on rand's `thread_rng().gen_range(0..n)`: a value drawn from `[0, n)`; the call
/// panics on an empty range, which `requires` leaves out.
#[verifier::external_body]
pub(crate) fn random_below(n: usize) -> (r: usize)
    requires
        n > 0,
    ensures
        r < n,
{
    rand::Rng::gen_range(&mut rand::thread_rng(), 0..n)
}

/// A copy of one of the loaded patterns, picked at random.
pub fn get_random_entity(universe: &Universe) -> (r: UniversePlane)
    requires
        universe.wf(),
        universe.patterns().len() > 0,
    ensures
        exists|i: int|
            0 <= i < universe.patterns().len() && plane_view(r) == #[trigger] universe.patterns()[i],
        wf_pattern(plane_view(r)),
{
    let species = universe.get_entities();
    let i = random_below(species.len());
    assert(plane_view(species[i as int]) == universe.patterns()[i as int]);
    let entity = species_nop(&species[i]);
    entity
}

} // verus!
