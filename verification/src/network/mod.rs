//! Stock-and-flow network: storages, flow edges, converters and the tick pipeline.

pub mod allocation;
pub mod clean;
pub mod components;
pub mod conversion;
pub mod demand;
pub mod laws;
pub mod resources;
pub mod systems;
pub mod tables;
pub mod transit;
pub mod types;
pub mod world;

pub use components::{
    Converter, ConverterBindings, Entity, FlowEdge, FlowQueue, Relocating, Storage, TransitPacket,
};
pub use types::ResourceAmount;
pub use resources::{
    CurrentTick, EdgeAllocation, EdgeDemand, FlowAllocations, PendingDemand, Recipe, RecipeIngredient,
    RecipeRegistry, TickErrorLog,
};
pub use world::{EdgeRow, ResourceDirectory, World};
pub use systems::{
    advance_tick_system, initialize_simulation_world, relocating_lifecycle_system, tick_fits, tick_simulation_world,
    try_tick_simulation_world,
};
pub use demand::{poll_demand_system, resolve_contention_system};
pub use transit::transit_flow_system;
pub use conversion::execute_converters_system;
