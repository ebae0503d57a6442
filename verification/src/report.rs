//! The validation of a set of recipes, and how a run over them ends.

use crate::dockerfile::invalid_images_of;
use crate::dockerfile::Dockerfile;
use crate::dockerfile::ValidationResult;
use vstd::prelude::*;

verus! {

/// Whether a recipe builds on an image that is not reproducible.
pub open spec fn fails(dockerfile: Dockerfile) -> bool {
    invalid_images_of(dockerfile.content@).len() > 0
}

/// The recipes among `dockerfiles` that fail, in their order.
pub open spec fn failing(dockerfiles: Seq<Dockerfile>) -> Seq<Dockerfile> {
    dockerfiles.filter(|dockerfile: Dockerfile| fails(dockerfile))
}

/// How a run over a set of recipes ends.
#[derive(Debug, Clone, Copy, PartialEq, Eq, Structural)]
pub enum Outcome {
    /// There was no recipe to look at.
    Skip,
    /// Every recipe builds on reproducible images only.
    Pass,
    /// Some recipe builds on an image that is not reproducible.
    Fail,
}

/// The outcome of a run that found `found` recipes, `failed` of them failing.
pub open spec fn outcome_of(found: nat, failed: nat) -> Outcome {
    if found == 0 {
        Outcome::Skip
    } else if failed == 0 {
        Outcome::Pass
    } else {
        Outcome::Fail
    }
}

/// Decides how a run ends that found `found` recipes, `failed` of them
/// failing.
pub fn outcome(found: usize, failed: usize) -> (end: Outcome)
    ensures
        end == outcome_of(found as nat, failed as nat),
{
    if found == 0 {
        Outcome::Skip
    } else if failed == 0 {
        Outcome::Pass
    } else {
        Outcome::Fail
    }
}

/// Validates each recipe and keeps those that fail, each with what its
/// validation found, in the order of `dockerfiles`.
pub fn validate_dockerfiles(dockerfiles: &[Dockerfile]) -> (failures: Vec<
    (&Dockerfile, ValidationResult),
>)
    ensures
        failures@.len() == failing(dockerfiles@).len(),
        forall|k: int|
            0 <= k < failures@.len() ==> {
                &&& *(#[trigger] failures@[k]).0 == failing(dockerfiles@)[k]
                &&& failures@[k].1@ == invalid_images_of(failures@[k].0.content@)
            },
{
    let mut failures: Vec<(&Dockerfile, ValidationResult)> = Vec::new();
    let mut at: usize = 0;
    proof {
        reveal(Seq::filter);
        assert(dockerfiles@.take(0).len() == 0);
    }
    while at < dockerfiles.len()
        invariant
            at <= dockerfiles@.len(),
            failures@.len() == failing(dockerfiles@.take(at as int)).len(),
            forall|k: int|
                0 <= k < failures@.len() ==> {
                    &&& *(#[trigger] failures@[k]).0 == failing(dockerfiles@.take(at as int))[k]
                    &&& failures@[k].1@ == invalid_images_of(failures@[k].0.content@)
                },
        decreases dockerfiles@.len() - at,
    {
        let dockerfile: &Dockerfile = &dockerfiles[at];
        let result: ValidationResult = dockerfile.validate();
        proof {
            let seen = dockerfiles@.take(at as int);
            seen.lemma_filter_push(*dockerfile, |dockerfile: Dockerfile| fails(dockerfile));
            assert(seen.push(*dockerfile) == dockerfiles@.take(at + 1));
        }
        if !result.invalid_images.is_empty() {
            failures.push((dockerfile, result));
        }
        at = at + 1;
    }
    proof {
        assert(dockerfiles@.take(dockerfiles@.len() as int) == dockerfiles@);
    }
    failures
}

} // verus!
