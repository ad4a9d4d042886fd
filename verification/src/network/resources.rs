//! Global simulation resources: tick counter, recipes, demand and allocation buffers, error log.

use vstd::prelude::*;
use std::collections::HashMap;
use crate::error::{DomainError, DomainErrorView};
use super::components::Entity;
use super::types::ResourceAmount;

verus! {

broadcast use vstd::std_specs::hash::group_hash_axioms;

/// Current discrete simulation tick.
#[derive(Debug, Clone, Copy, PartialEq, Eq, Structural, Default)]
pub struct CurrentTick(pub u64);

/// A specific resource ingredient and stoichiometric quantity for a recipe.
#[derive(Debug, Clone, Copy, PartialEq, Eq, Structural)]
pub struct RecipeIngredient {
    /// Resource element identifier.
    pub element_id: u32,
    /// Exact micro-unit quantity required or produced.
    pub amount: ResourceAmount,
}

/// Stoichiometric conversion recipe definition.
#[derive(Debug, Clone, PartialEq, Eq)]
pub struct Recipe {
    /// Unique recipe identifier.
    pub id: u32,
    /// Input ingredients consumed per conversion cycle.
    pub inputs: Vec<RecipeIngredient>,
    /// Output ingredients yielded per conversion cycle.
    pub outputs: Vec<RecipeIngredient>,
}

/// Global registry of transformation recipes, keyed by recipe id.
#[derive(Debug, Clone, Default)]
pub struct RecipeRegistry {
    /// Map of recipe ID to recipe definition.
    pub recipes: HashMap<u32, Recipe>,
}

impl View for RecipeRegistry {
    type V = Map<u32, Recipe>;

    open spec fn view(&self) -> Map<u32, Recipe> {
        self.recipes@
    }
}

impl RecipeRegistry {
    /// Creates an empty recipe registry.
    pub fn new() -> (r: Self)
        ensures
            r@ == Map::<u32, Recipe>::empty(),
    {
        RecipeRegistry { recipes: HashMap::new() }
    }

    /// Registers a recipe under its id, replacing any recipe registered with that id.
    pub fn register(&mut self, recipe: Recipe)
        ensures
            final(self)@ == old(self)@.insert(recipe.id, recipe),
    {
        assert(vstd::std_specs::hash::obeys_key_model::<u32>());
        let id = recipe.id;
        self.recipes.insert(id, recipe);
    }

    /// Retrieves a recipe by id.
    pub fn get(&self, id: u32) -> (r: Option<&Recipe>)
        ensures
            match r {
                Some(x) => self@.contains_key(id) && *x == self@[id],
                None => !self@.contains_key(id),
            },
    {
        assert(vstd::std_specs::hash::obeys_key_model::<u32>());
        self.recipes.get(&id)
    }
}

/// Recorded demand request for a single flow edge.
#[derive(Debug, Clone, Copy, PartialEq, Eq, Structural)]
pub struct EdgeDemand {
    /// Entity of the flow edge.
    pub edge_entity: Entity,
    /// Source stock entity.
    pub source: Entity,
    /// Destination stock entity.
    pub destination: Entity,
    /// Quantity demanded in micro-units.
    pub requested_amount: ResourceAmount,
}

/// Buffer of pending demands generated in phase 1.
#[derive(Debug, Clone, Default)]
pub struct PendingDemand {
    /// Ordered list of demands awaiting allocation.
    pub demands: Vec<EdgeDemand>,
}

/// Result of contention resolution for a single edge.
#[derive(Debug, Clone, Copy, PartialEq, Eq, Structural)]
pub struct EdgeAllocation {
    /// Entity of the flow edge.
    pub edge_entity: Entity,
    /// Quantity allocated after pro-rata contention resolution.
    pub allocated_amount: ResourceAmount,
}

/// Buffer of allocated edge transfers determined in phase 2.
#[derive(Debug, Clone, Default)]
pub struct FlowAllocations {
    /// Ordered list of finalized allocations.
    pub allocations: Vec<EdgeAllocation>,
}

/// Collector of domain errors during a simulation tick.
#[derive(Debug, Clone, Default)]
pub struct TickErrorLog {
    /// Domain errors collected across systems during the tick.
    pub errors: Vec<DomainError>,
}

/// The errors of a log, each taken by its view.
pub open spec fn error_views(errors: Seq<DomainError>) -> Seq<DomainErrorView> {
    errors.map_values(|e: DomainError| e@)
}

impl View for TickErrorLog {
    type V = Seq<DomainErrorView>;

    open spec fn view(&self) -> Seq<DomainErrorView> {
        error_views(self.errors@)
    }
}

impl TickErrorLog {
    /// An empty log.
    pub fn new() -> (l: Self)
        ensures
            l.errors@ == Seq::<DomainError>::empty(),
    {
        TickErrorLog { errors: Vec::new() }
    }

    /// Adds an error at the end of the log.
    pub fn push(&mut self, err: DomainError)
        ensures
            final(self).errors@ == old(self).errors@.push(err),
    {
        self.errors.push(err);
    }

    /// Returns the earliest error, if any occurred, clearing the log.
    pub fn take_first(&mut self) -> (r: Option<DomainError>)
        ensures
            match r {
                None => old(self).errors@.len() == 0,
                Some(e) => old(self).errors@.len() > 0 && e == old(self).errors@[0],
            },
            final(self).errors@.len() == 0,
    {
        if self.errors.len() == 0 {
            None
        } else {
            let e = self.errors.remove(0);
            self.errors = Vec::new();
            Some(e)
        }
    }
}

} // verus!
