use greenfield_engine::damage::{classify, EnergyReach, PhaseChange};

fn reach(f: bool, m: Option<bool>, v: Option<bool>) -> EnergyReach {
    EnergyReach { reaches_fracture: f, reaches_melt: m, reaches_vapor: v }
}

#[test]
fn energy_density_walks_intact_fractured_melted_vaporized() {
    // A basalt-like parcel with thermal data: fracture < melt < vapor thresholds.
    assert_eq!(classify(reach(false, Some(false), Some(false))), PhaseChange::Intact);
    assert_eq!(classify(reach(true, Some(false), Some(false))), PhaseChange::Fractured);
    assert_eq!(classify(reach(true, Some(true), Some(false))), PhaseChange::Melted);
    assert_eq!(classify(reach(true, Some(true), Some(true))), PhaseChange::Vaporized);
}

#[test]
fn vaporization_is_checked_before_melting() {
    // Reaching the vapor threshold wins even if the melt comparison were (inconsistently) false.
    assert_eq!(classify(reach(true, Some(false), Some(true))), PhaseChange::Vaporized);
}

#[test]
fn below_fracture_strength_stays_intact_whatever_else() {
    assert_eq!(classify(reach(false, Some(true), Some(true))), PhaseChange::Intact);
    assert_eq!(classify(reach(false, None, None)), PhaseChange::Intact);
}

#[test]
fn without_thermal_data_only_fracture_is_claimed() {
    // Oak carries no thermal data: even a planetary-scale energy density only fractures it.
    assert_eq!(classify(reach(true, None, None)), PhaseChange::Fractured);
}

#[test]
fn more_energy_is_never_milder() {
    let order = |p: PhaseChange| match p {
        PhaseChange::Intact => 0,
        PhaseChange::Fractured => 1,
        PhaseChange::Melted => 2,
        PhaseChange::Vaporized => 3,
    };
    let steps = [
        reach(false, Some(false), Some(false)),
        reach(true, Some(false), Some(false)),
        reach(true, Some(true), Some(false)),
        reach(true, Some(true), Some(true)),
    ];
    for w in steps.windows(2) {
        assert!(order(classify(w[0])) <= order(classify(w[1])));
    }
}
