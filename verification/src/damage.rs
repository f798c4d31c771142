//! What a parcel of impacted matter becomes: intact, fractured, melted or vaporized.
//!
//! The deposited energy density is compared (by the caller, in floating point) against three
//! material thresholds — fracture strength, the energy to melt, the energy to vaporize. The melt and
//! vaporize thresholds exist only when the material carries thermal data. This module decides the
//! phase from which thresholds were reached.

use vstd::prelude::*;

verus! {

/// The fate of a parcel at a given deposited energy density.
#[derive(Clone, Copy, Debug, PartialEq, Eq, Structural)]
pub enum PhaseChange {
    Intact,
    Fractured,
    Melted,
    Vaporized,
}

/// Which material thresholds the deposited energy density reached. `reaches_melt` and
/// `reaches_vapor` are `None` when the material has no thermal data.
#[derive(Clone, Copy, Debug, PartialEq, Eq, Structural)]
pub struct EnergyReach {
    pub reaches_fracture: bool,
    pub reaches_melt: Option<bool>,
    pub reaches_vapor: Option<bool>,
}

/// The phase decided by the reached thresholds: below fracture strength the parcel is intact;
/// otherwise vaporization is checked first, then melting, and fracture is the fallback.
pub open spec fn classify_spec(r: EnergyReach) -> PhaseChange {
    if !r.reaches_fracture {
        PhaseChange::Intact
    } else if r.reaches_vapor == Some(true) {
        PhaseChange::Vaporized
    } else if r.reaches_melt == Some(true) {
        PhaseChange::Melted
    } else {
        PhaseChange::Fractured
    }
}

/// Severity order of the phases: intact < fractured < melted < vaporized.
pub open spec fn severity(p: PhaseChange) -> int {
    match p {
        PhaseChange::Intact => 0,
        PhaseChange::Fractured => 1,
        PhaseChange::Melted => 2,
        PhaseChange::Vaporized => 3,
    }
}

/// Classify a parcel's fate from the thresholds its energy density reached.
pub fn classify(reach: EnergyReach) -> (p: PhaseChange)
    ensures
        p == classify_spec(reach),
{
    if !reach.reaches_fracture {
        return PhaseChange::Intact;
    }
    if let Some(v) = reach.reaches_vapor {
        if v {
            return PhaseChange::Vaporized;
        }
    }
    if let Some(m) = reach.reaches_melt {
        if m {
            return PhaseChange::Melted;
        }
    }
    PhaseChange::Fractured
}

/// Reaching a threshold is monotone in the energy density: reaching a higher energy never
/// reaches fewer thresholds. `a` is below-or-equal `b` in that sense.
pub open spec fn reach_le(a: EnergyReach, b: EnergyReach) -> bool {
    &&& (a.reaches_fracture ==> b.reaches_fracture)
    &&& (a.reaches_melt is Some <==> b.reaches_melt is Some)
    &&& (a.reaches_vapor is Some <==> b.reaches_vapor is Some)
    &&& (a.reaches_melt == Some(true) ==> b.reaches_melt == Some(true))
    &&& (a.reaches_vapor == Some(true) ==> b.reaches_vapor == Some(true))
}

/// More deposited energy never yields a milder fate: if every threshold reached by `a` is also
/// reached by `b` (same material), then `b`'s phase is at least as severe as `a`'s.
pub proof fn lemma_more_energy_never_milder(a: EnergyReach, b: EnergyReach)
    requires
        reach_le(a, b),
    ensures
        severity(classify_spec(a)) <= severity(classify_spec(b)),
{
}

/// Without thermal data the classification never claims melting or vaporization: it can only
/// report intact or fractured.
pub proof fn lemma_no_thermal_data_only_fractures(r: EnergyReach)
    requires
        r.reaches_melt is None,
        r.reaches_vapor is None,
    ensures
        classify_spec(r) == PhaseChange::Intact || classify_spec(r) == PhaseChange::Fractured,
        r.reaches_fracture ==> classify_spec(r) == PhaseChange::Fractured,
{
}

/// Energy below the fracture strength leaves the parcel intact, whatever else it reaches.
pub proof fn lemma_below_fracture_is_intact(r: EnergyReach)
    requires
        !r.reaches_fracture,
    ensures
        classify_spec(r) == PhaseChange::Intact,
{
}

} // verus!
