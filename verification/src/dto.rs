//! Plain data records describing the simulation state for clients.

use vstd::prelude::*;

verus! {

/// A resource definition in the simulation.
#[derive(Debug, Clone, PartialEq, Eq)]
pub struct ResourceDto {
    /// Unique resource identifier.
    pub id: u32,
    /// Human-readable resource name.
    pub name: String,
}

/// A storage node's current amount and capacity.
#[derive(Debug, Clone, Copy, PartialEq, Eq, Structural)]
pub struct StorageDto {
    /// Entity index of the storage.
    pub entity_id: u32,
    /// Resource identifier stored.
    pub resource_id: u32,
    /// Current stored quantity in micro-units.
    pub amount: i64,
    /// Maximum capacity in micro-units.
    pub capacity: i64,
}

/// A converter entity and its active recipe.
#[derive(Debug, Clone, Copy, PartialEq, Eq, Structural)]
pub struct ConverterDto {
    /// Entity index of the converter.
    pub entity_id: u32,
    /// Recipe identifier.
    pub recipe_id: u32,
}

/// A flow edge and the total amount of its in-transit packets.
#[derive(Debug, Clone, Copy, PartialEq, Eq, Structural)]
pub struct FlowEdgeDto {
    /// Entity index of the flow edge.
    pub edge_id: u32,
    /// Entity index of the source storage.
    pub source_id: u32,
    /// Entity index of the destination storage.
    pub destination_id: u32,
    /// Total micro-units currently traversing in transit packets.
    pub in_transit: i64,
}

/// An astronomical body with physical radius and H3 resolution.
#[derive(Debug, Clone, Copy, PartialEq, Eq, Structural)]
pub struct AstroNodeDto {
    /// Entity index of the body.
    pub entity_id: u32,
    /// Unique body identifier (e.g., Earth = 1, Mars = 2).
    pub body_id: u32,
    /// Mean physical radius in kilometers.
    pub radius_km: u32,
    /// Base H3 grid resolution for surface indexing.
    pub h3_resolution: u8,
}

/// An entity positioned on a planetary surface via an H3 cell index.
#[derive(Debug, Clone, PartialEq, Eq)]
pub struct SurfaceNodeDto {
    /// Entity index of the surface node.
    pub entity_id: u32,
    /// Body identifier of the parent astronomical body.
    pub parent_body_id: u32,
    /// H3 cell index formatted as lowercase hexadecimal.
    pub h3_cell_index: String,
}

} // verus!
