//! Deterministic stock-and-flow simulation core with fixed-point resource accounting.
//!
//! All quantities are 64-bit signed micro-units; every operation of the network
//! states its exact effect in its contract, and the tick pipeline's conservation of
//! mass is proved.

pub mod dto;
pub mod error;
pub mod generator;
pub mod network;
pub mod simulation;
pub mod spatial;
pub mod text;

pub use dto::{AstroNodeDto, ConverterDto, FlowEdgeDto, ResourceDto, StorageDto, SurfaceNodeDto};
pub use error::DomainError;
pub use network::{
    initialize_simulation_world, tick_fits, tick_simulation_world, try_tick_simulation_world, Converter, ConverterBindings, CurrentTick, Entity,
    FlowEdge, FlowQueue, Recipe, RecipeIngredient, RecipeRegistry, Relocating, ResourceAmount, Storage,
    TransitPacket, World,
};
pub use simulation::{build_world_from_snapshot, ResourceDirectory};
pub use spatial::{AstroNode, SurfaceNode};
