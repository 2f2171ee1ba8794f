//! Trap geometry and the choice of trapping potential.

use vstd::prelude::*;

verus! {

/// Specifies the type of trap used in the simulation.
#[derive(Debug, Clone, Copy, PartialEq, Eq, Structural)]
pub enum TrapType {
    /// The simplest confinement of atomic gases is in a harmonic trap.
    Harmonic,
    /// A ring-shaped trap.
    Toroidal,
    /// Deprecated in favour of using `Harmonic` which also permits highly anisotropic potentials.
    Cigar,
}

/// The analytic potential that a trap is evaluated with.
#[derive(Debug, Clone, Copy, PartialEq, Eq, Structural)]
pub enum PotentialKind {
    /// \(\tfrac12 x^2 + \tfrac12 (\omega_y/\omega_x)^2 y^2\)
    Harmonic,
    /// \(V_0 \left(1 - e^{-(r-R)^2 / (2\sigma^2)}\right)\)
    Toroidal,
}

impl TrapType {
    /// The potential a trap type selects: the deprecated cigar trap is a
    /// (possibly anisotropic) harmonic trap.
    pub open spec fn spec_potential_kind(self) -> PotentialKind {
        match self {
            TrapType::Toroidal => PotentialKind::Toroidal,
            _ => PotentialKind::Harmonic,
        }
    }

    /// Selects the potential that `calculate_potential` evaluates for this trap.
    pub fn potential_kind(&self) -> (kind: PotentialKind)
        ensures
            kind == self.spec_potential_kind(),
    {
        match self {
            TrapType::Harmonic | TrapType::Cigar => PotentialKind::Harmonic,
            TrapType::Toroidal => PotentialKind::Toroidal,
        }
    }
}

/// A parameter that only the toroidal trap needs.
#[derive(Debug, Clone, Copy, PartialEq, Eq, Structural)]
pub enum ToroidalParameter {
    /// Amplitude \(V_0\) of the ring trap.
    Depth,
    /// Radius \(R\) of the ring.
    RingRadius,
    /// Width \(\sigma\) of the ring.
    TrapRadius,
}

impl ToroidalParameter {
    /// The message with which a toroidal trap that lacks this parameter is
    /// rejected.
    pub fn requirement_message(&self) -> (message: &'static str)
        ensures
            message@ == match self {
                ToroidalParameter::Depth => "Depth is required for a toroidal trap"@,
                ToroidalParameter::RingRadius => "Ring radius is required for a toroidal trap"@,
                ToroidalParameter::TrapRadius => "Trap radius is required for a toroidal trap"@,
            },
    {
        match self {
            ToroidalParameter::Depth => "Depth is required for a toroidal trap",
            ToroidalParameter::RingRadius => "Ring radius is required for a toroidal trap",
            ToroidalParameter::TrapRadius => "Trap radius is required for a toroidal trap",
        }
    }
}

/// The first toroidal parameter, in the order depth, ring radius, trap
/// radius, that the trap leaves unset; `None` when all three are given.
pub open spec fn spec_first_missing_toroidal_parameter(
    has_depth: bool,
    has_ring_radius: bool,
    has_trap_radius: bool,
) -> Option<ToroidalParameter> {
    if !has_depth {
        Some(ToroidalParameter::Depth)
    } else if !has_ring_radius {
        Some(ToroidalParameter::RingRadius)
    } else if !has_trap_radius {
        Some(ToroidalParameter::TrapRadius)
    } else {
        None
    }
}

/// Checks, in the order the toroidal potential reads them, that the trap
/// supplies every toroidal parameter, and names the first one missing.
pub fn first_missing_toroidal_parameter(
    has_depth: bool,
    has_ring_radius: bool,
    has_trap_radius: bool,
) -> (missing: Option<ToroidalParameter>)
    ensures
        missing == spec_first_missing_toroidal_parameter(has_depth, has_ring_radius, has_trap_radius),
        missing is None <==> (has_depth && has_ring_radius && has_trap_radius),
{
    if !has_depth {
        Some(ToroidalParameter::Depth)
    } else if !has_ring_radius {
        Some(ToroidalParameter::RingRadius)
    } else if !has_trap_radius {
        Some(ToroidalParameter::TrapRadius)
    } else {
        None
    }
}

} // verus!
