//! Domain errors raised by validation and fixed-point accounting.

use vstd::prelude::*;

verus! {

/// Domain error representations for simulation calculations and model validation.
#[derive(Debug, Clone, PartialEq, Eq)]
pub enum DomainError {
    /// Eccentricity outside `0 <= e < 1`.
    InvalidEccentricity(String),
    /// Orbital period not strictly positive.
    InvalidOrbitalPeriod(String),
    /// Semi-major axis not strictly positive.
    InvalidSemiMajorAxis(String),
    /// Kepler solver did not converge.
    ConvergenceFailure(String),
    /// Fixed-point arithmetic left the 64-bit range (or divided by zero).
    ResourceOverflow(String),
    /// A resource amount that must be non-negative was negative.
    NegativeResourceAmount(i64),
    /// A storage would hold more than its capacity.
    CapacityExceeded { current: i64, capacity: i64 },
    /// A withdrawal asked for more than the storage holds.
    InsufficientInventory { available: i64, requested: i64 },
}

/// The mathematical content of a `DomainError`: messages taken by their characters.
pub enum DomainErrorView {
    InvalidEccentricity(Seq<char>),
    InvalidOrbitalPeriod(Seq<char>),
    InvalidSemiMajorAxis(Seq<char>),
    ConvergenceFailure(Seq<char>),
    ResourceOverflow(Seq<char>),
    NegativeResourceAmount(i64),
    CapacityExceeded { current: i64, capacity: i64 },
    InsufficientInventory { available: i64, requested: i64 },
}

impl View for DomainError {
    type V = DomainErrorView;

    open spec fn view(&self) -> DomainErrorView {
        match self {
            DomainError::InvalidEccentricity(m) => DomainErrorView::InvalidEccentricity(m@),
            DomainError::InvalidOrbitalPeriod(m) => DomainErrorView::InvalidOrbitalPeriod(m@),
            DomainError::InvalidSemiMajorAxis(m) => DomainErrorView::InvalidSemiMajorAxis(m@),
            DomainError::ConvergenceFailure(m) => DomainErrorView::ConvergenceFailure(m@),
            DomainError::ResourceOverflow(m) => DomainErrorView::ResourceOverflow(m@),
            DomainError::NegativeResourceAmount(v) => DomainErrorView::NegativeResourceAmount(*v),
            DomainError::CapacityExceeded { current, capacity } => DomainErrorView::CapacityExceeded {
                current: *current,
                capacity: *capacity,
            },
            DomainError::InsufficientInventory { available, requested } =>
                DomainErrorView::InsufficientInventory { available: *available, requested: *requested },
        }
    }
}

} // verus!
