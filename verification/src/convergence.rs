//! Convergence detection: fitness plateau and species stabilization.
use vstd::prelude::*;
use crate::species::{stable_for, SpeciesTracker};

verus! {

/// Result of convergence detection.
#[derive(Clone, Debug)]
pub struct ConvergenceStatus {
    /// Whether the population has converged.
    pub converged: bool,
    /// Reason for convergence (if any).
    pub reason: Option<String>,
    /// How many generations fitness has been stable.
    pub plateau_generations: usize,
}

/// The number of `true` entries at the end of `flat`, up to the last `false`.
pub open spec fn trailing_run(flat: Seq<bool>) -> nat
    decreases flat.len(),
{
    if flat.len() == 0 {
        0
    } else if flat.last() {
        trailing_run(flat.drop_last()) + 1
    } else {
        0
    }
}

/// The plateau is the run of `true` at the end: its length `r` is at most the number of steps,
/// the last `r` steps are all flat, and the step before them, if any, is not.
pub proof fn lemma_trailing_run(flat: Seq<bool>)
    ensures
        trailing_run(flat) <= flat.len(),
        forall|i: int| flat.len() - trailing_run(flat) <= i < flat.len() ==> #[trigger] flat[i],
        trailing_run(flat) < flat.len() ==> !flat[flat.len() - trailing_run(flat) - 1],
    decreases flat.len(),
{
    if flat.len() > 0 {
        lemma_trailing_run(flat.drop_last());
        if flat.last() {
            assert forall|i: int| flat.len() - trailing_run(flat) <= i < flat.len() implies #[trigger] flat[i] by {
                if i < flat.len() - 1 {
                    assert(flat[i] == flat.drop_last()[i]);
                }
            }
            if trailing_run(flat) < flat.len() {
                assert(flat[flat.len() - trailing_run(flat) - 1] == flat.drop_last()[flat.len() - 1 - trailing_run(flat.drop_last()) - 1]);
            }
        }
    }
}

/// The length of the plateau at the end of the fitness history, from its steps: `flat[i]`
/// says whether the step from generation `i` to generation `i + 1` changed fitness by less
/// than the tolerance. The plateau is the run of flat steps since the last step that was not.
pub fn plateau_generations(flat: &Vec<bool>) -> (r: usize)
    ensures
        r == trailing_run(flat@),
        r <= flat@.len(),
{
    let mut count: usize = 0;
    let mut i: usize = flat.len();
    assert(flat@.take(i as int) =~= flat@);
    while i > 0
        invariant
            i <= flat@.len(),
            count + i == flat.len(),
            trailing_run(flat@) == count + trailing_run(flat@.take(i as int)),
        decreases i,
    {
        assert(flat@.take(i as int).drop_last() =~= flat@.take(i - 1));
        if !flat[i - 1] {
            return count;
        }
        count = count + 1;
        i = i - 1;
    }
    count
}

/// The verdict for a plateau length and species stability: converged when the plateau
/// reaches the threshold or the species are stable, with the reason named.
pub open spec fn verdict(plateau: nat, plateau_threshold: nat, species_stable: bool) -> (bool, Option<Seq<char>>) {
    let fitness_plateau = plateau >= plateau_threshold;
    if fitness_plateau && species_stable {
        (true, Some("Both fitness plateau and species stability"@))
    } else if fitness_plateau {
        (true, Some("Fitness plateau"@))
    } else if species_stable {
        (true, Some("Species stabilization"@))
    } else {
        (false, None)
    }
}

impl ConvergenceStatus {
    /// The convergence status for the steps of the fitness history (see `plateau_generations`)
    /// and a species tracker: a fitness plateau of at least `plateau_threshold` generations, or
    /// species counts unchanged over the last `species_stability_threshold` censuses, means
    /// convergence; the reason names which held.
    pub fn assess(
        flat: &Vec<bool>,
        plateau_threshold: usize,
        species: &SpeciesTracker,
        species_stability_threshold: usize,
    ) -> (r: ConvergenceStatus)
        requires
            species_stability_threshold < usize::MAX,
        ensures
            r.plateau_generations == trailing_run(flat@),
            r.converged == verdict(
                trailing_run(flat@),
                plateau_threshold as nat,
                stable_for(species.history@, species_stability_threshold as nat),
            ).0,
            r.reason matches Some(s) ==> verdict(
                trailing_run(flat@),
                plateau_threshold as nat,
                stable_for(species.history@, species_stability_threshold as nat),
            ).1 == Some(s@),
            r.reason is None <==> verdict(
                trailing_run(flat@),
                plateau_threshold as nat,
                stable_for(species.history@, species_stability_threshold as nat),
            ).1 is None,
    {
        let plateau_gens = plateau_generations(flat);
        let fitness_plateau = plateau_gens >= plateau_threshold;
        let species_stable = species.is_stable(species_stability_threshold);
        let (converged, reason) = if fitness_plateau && species_stable {
            (true, Some("Both fitness plateau and species stability".to_owned()))
        } else if fitness_plateau {
            (true, Some("Fitness plateau".to_owned()))
        } else if species_stable {
            (true, Some("Species stabilization".to_owned()))
        } else {
            (false, None)
        };
        ConvergenceStatus { converged, reason, plateau_generations: plateau_gens }
    }
}

} // verus!
