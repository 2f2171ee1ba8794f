use sgpe::trap::{first_missing_toroidal_parameter, PotentialKind, ToroidalParameter, TrapType};

#[test]
fn trap_types_select_their_potential() {
    assert_eq!(TrapType::Harmonic.potential_kind(), PotentialKind::Harmonic);
    assert_eq!(TrapType::Cigar.potential_kind(), PotentialKind::Harmonic);
    assert_eq!(TrapType::Toroidal.potential_kind(), PotentialKind::Toroidal);
}

#[test]
fn toroidal_parameters_checked_in_order() {
    assert_eq!(first_missing_toroidal_parameter(true, true, true), None);
    assert_eq!(
        first_missing_toroidal_parameter(false, false, false),
        Some(ToroidalParameter::Depth)
    );
    assert_eq!(
        first_missing_toroidal_parameter(true, false, false),
        Some(ToroidalParameter::RingRadius)
    );
    assert_eq!(
        first_missing_toroidal_parameter(true, true, false),
        Some(ToroidalParameter::TrapRadius)
    );
}

#[test]
fn missing_parameter_messages() {
    assert_eq!(
        ToroidalParameter::Depth.requirement_message(),
        "Depth is required for a toroidal trap"
    );
    assert_eq!(
        ToroidalParameter::RingRadius.requirement_message(),
        "Ring radius is required for a toroidal trap"
    );
    assert_eq!(
        ToroidalParameter::TrapRadius.requirement_message(),
        "Trap radius is required for a toroidal trap"
    );
}
