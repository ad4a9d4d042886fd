//! The simulation world: entities and their component tables, plus global resources.
//!
//! Each component kind lives in its own table of `(entity, component)` rows kept in
//! insertion order; queries visit rows in that order and look entities up by their
//! first row.

use vstd::prelude::*;
use crate::dto::ResourceDto;
use crate::error::DomainErrorView;
use crate::spatial::{AstroNode, SurfaceNode};
use super::components::{Converter, ConverterBindings, Entity, FlowEdge, FlowQueue, Relocating, Storage, TransitPacket};
use super::resources::{
    error_views, CurrentTick, EdgeAllocation, EdgeDemand, FlowAllocations, PendingDemand, Recipe,
    RecipeRegistry, TickErrorLog,
};

verus! {

/// Global directory of resource definitions.
#[derive(Debug, Clone, Default, PartialEq, Eq)]
pub struct ResourceDirectory {
    /// Ordered resource definitions.
    pub resources: Vec<ResourceDto>,
}

impl ResourceDirectory {
    /// Creates a resource directory with the given definitions.
    pub fn new(resources: Vec<ResourceDto>) -> (d: Self)
        ensures
            d.resources@ == resources@,
    {
        ResourceDirectory { resources }
    }
}

/// A flow edge row: the edge's entity, the edge and its queue of packets in flight.
#[derive(Debug, Clone, PartialEq, Eq)]
pub struct EdgeRow {
    /// Entity of the edge.
    pub entity: Entity,
    /// The edge itself.
    pub edge: FlowEdge,
    /// Packets travelling along the edge.
    pub queue: FlowQueue,
}

/// Mathematical content of an edge row: entity, then edge and packets.
pub open spec fn edge_row_view(r: EdgeRow) -> (Entity, (FlowEdge, Seq<TransitPacket>)) {
    (r.entity, (r.edge, r.queue@))
}

/// Mathematical content of a bindings row: entity, then input and output storages.
pub open spec fn bindings_row_view(r: (Entity, ConverterBindings)) -> (Entity, (Seq<Entity>, Seq<Entity>)) {
    (r.0, (r.1.inputs@, r.1.outputs@))
}

/// The state that the tick pipeline reads and writes.
#[verifier::ext_equal]
pub struct NetState {
    pub tick: u64,
    pub storages: Seq<(Entity, Storage)>,
    pub edges: Seq<(Entity, (FlowEdge, Seq<TransitPacket>))>,
    pub converters: Seq<(Entity, Converter)>,
    pub bindings: Seq<(Entity, (Seq<Entity>, Seq<Entity>))>,
    pub relocating: Seq<(Entity, Relocating)>,
    pub recipes: Map<u32, Recipe>,
    pub demands: Seq<EdgeDemand>,
    pub allocations: Seq<EdgeAllocation>,
    pub errors: Seq<DomainErrorView>,
}

/// Index of the first row of `rows` at or after `j` that belongs to entity `e`.
pub open spec fn find_from<T>(rows: Seq<(Entity, T)>, e: Entity, j: int) -> Option<int>
    decreases rows.len() - j,
{
    if j < 0 || j >= rows.len() {
        None
    } else if rows[j].0 == e {
        Some(j)
    } else {
        find_from(rows, e, j + 1)
    }
}

/// Index of the first row of `rows` that belongs to entity `e`.
pub open spec fn find_first<T>(rows: Seq<(Entity, T)>, e: Entity) -> Option<int> {
    find_from(rows, e, 0)
}

/// What `find_from` returns: a matching row with no earlier match, or no match at all.
pub proof fn lemma_find_from<T>(rows: Seq<(Entity, T)>, e: Entity, j: int)
    requires
        0 <= j,
    ensures
        match find_from(rows, e, j) {
            Some(k) => j <= k < rows.len() && rows[k].0 == e && forall|m: int|
                j <= m < k ==> rows[m].0 != e,
            None => forall|m: int| j <= m < rows.len() ==> rows[m].0 != e,
        },
    decreases rows.len() - j,
{
    if j < rows.len() && rows[j].0 != e {
        lemma_find_from(rows, e, j + 1);
    }
}

/// Two tables whose rows carry the same entities in the same order answer lookups alike.
pub proof fn lemma_find_same_keys<T, U>(a: Seq<(Entity, T)>, b: Seq<(Entity, U)>, e: Entity, j: int)
    requires
        a.len() == b.len(),
        forall|m: int| 0 <= m < a.len() ==> #[trigger] a[m].0 == b[m].0,
    ensures
        find_from(a, e, j) == find_from(b, e, j),
    decreases a.len() - j,
{
    if 0 <= j < a.len() {
        lemma_find_same_keys(a, b, e, j + 1);
    }
}

/// Finds the first row of `rows` belonging to `e`.
pub fn find_row<T>(rows: &Vec<(Entity, T)>, e: Entity) -> (r: Option<usize>)
    ensures
        match r {
            Some(i) => find_first(rows@, e) == Some(i as int) && i < rows@.len() && rows@[i as int].0 == e,
            None => find_first(rows@, e) == None::<int>,
        },
{
    let mut j: usize = 0;
    while j < rows.len()
        invariant
            j <= rows.len(),
            find_first(rows@, e) == find_from(rows@, e, j as int),
        decreases rows.len() - j,
    {
        if rows[j].0 == e {
            return Some(j);
        }
        j = j + 1;
    }
    None
}

/// Finds the first edge row belonging to `e`.
pub fn find_edge_row(rows: &Vec<EdgeRow>, e: Entity) -> (r: Option<usize>)
    ensures
        match r {
            Some(i) => find_first(rows@.map_values(|x: EdgeRow| edge_row_view(x)), e) == Some(i as int)
                && i < rows@.len() && rows@[i as int].entity == e,
            None => find_first(rows@.map_values(|x: EdgeRow| edge_row_view(x)), e) == None::<int>,
        },
{
    let ghost v = rows@.map_values(|x: EdgeRow| edge_row_view(x));
    let mut j: usize = 0;
    while j < rows.len()
        invariant
            j <= rows.len(),
            v == rows@.map_values(|x: EdgeRow| edge_row_view(x)),
            find_first(v, e) == find_from(v, e, j as int),
        decreases rows.len() - j,
    {
        if rows[j].entity == e {
            return Some(j);
        }
        j = j + 1;
    }
    None
}

/// No two rows of the table belong to the same entity.
pub open spec fn distinct_keys<T>(rows: Seq<(Entity, T)>) -> bool {
    forall|i: int, j: int| 0 <= i < j < rows.len() ==> #[trigger] rows[i].0 != #[trigger] rows[j].0
}

/// Every row of the table belongs to an entity already spawned (index below `n`).
pub open spec fn keys_below<T>(rows: Seq<(Entity, T)>, n: u32) -> bool {
    forall|i: int| 0 <= i < rows.len() ==> #[trigger] rows[i].0.0 < n
}

/// One row per entity, and only for entities below `n`.
pub open spec fn table_ok<T>(rows: Seq<(Entity, T)>, n: u32) -> bool {
    distinct_keys(rows) && keys_below(rows, n)
}

/// `new` is `old`, or `old` with one more row, for the entity of index `n`.
pub open spec fn grown_by<T>(old: Seq<(Entity, T)>, new: Seq<(Entity, T)>, n: u32) -> bool {
    new == old || (new.len() == old.len() + 1 && new[old.len() as int].0.0 == n && forall|i: int|
        0 <= i < old.len() ==> #[trigger] new[i] == old[i])
}

/// A table either unchanged or grown by one row for entity `n`, the entity just spawned,
/// stays one-row-per-entity below `n + 1`.
pub proof fn lemma_table_spawn<T>(old: Seq<(Entity, T)>, new: Seq<(Entity, T)>, n: u32)
    requires
        table_ok(old, n),
        n < u32::MAX,
        grown_by(old, new, n),
    ensures
        table_ok(new, (n + 1) as u32),
{
    if new != old {
        assert forall|i: int| 0 <= i < new.len() implies #[trigger] new[i].0.0 < n + 1 by {
            if i < old.len() {
                assert(new[i] == old[i]);
            }
        }
        assert forall|i: int, j: int| 0 <= i < j < new.len() implies #[trigger] new[i].0 != #[trigger] new[j].0 by {
            assert(new[i] == old[i]);
            if j < old.len() {
                assert(new[j] == old[j]);
            } else {
                assert(old[i].0.0 < n);
            }
        }
    }
}

/// Giving entity `e` (already spawned) a component keeps the table one-row-per-entity.
pub proof fn lemma_table_insert<T>(rows: Seq<(Entity, T)>, e: Entity, x: T, n: u32)
    requires
        table_ok(rows, n),
        e.0 < n,
    ensures
        table_ok(
            match find_first(rows, e) {
                Some(i) => rows.update(i, (e, x)),
                None => rows.push((e, x)),
            },
            n,
        ),
{
    lemma_find_from(rows, e, 0);
    match find_first(rows, e) {
        Some(i) => {
            let new = rows.update(i, (e, x));
            assert forall|a: int, b: int| 0 <= a < b < new.len() implies #[trigger] new[a].0 != #[trigger] new[b].0 by {
                assert(rows[a].0 != rows[b].0);
            }
            assert forall|a: int| 0 <= a < new.len() implies #[trigger] new[a].0.0 < n by {
                assert(rows[a].0.0 < n);
            }
        },
        None => {
            let new = rows.push((e, x));
            assert forall|a: int, b: int| 0 <= a < b < new.len() implies #[trigger] new[a].0 != #[trigger] new[b].0 by {
                assert(new[a] == rows[a]);
                if b < rows.len() {
                    assert(new[b] == rows[b]);
                }
            }
            assert forall|a: int| 0 <= a < new.len() implies #[trigger] new[a].0.0 < n by {
                if a < rows.len() {
                    assert(new[a] == rows[a]);
                }
            }
        },
    }
}

/// A world one entity further on, each table unchanged or grown by a row for that entity,
/// stays well formed.
proof fn lemma_world_spawned(old: World, new: World)
    requires
        old.wf(),
        old.next_entity < u32::MAX,
        new.next_entity == old.next_entity + 1,
        grown_by(old.storages@, new.storages@, old.next_entity),
        grown_by(old.net().edges, new.net().edges, old.next_entity),
        grown_by(old.converters@, new.converters@, old.next_entity),
        grown_by(old.net().bindings, new.net().bindings, old.next_entity),
        grown_by(old.relocating@, new.relocating@, old.next_entity),
        grown_by(old.astro_nodes@, new.astro_nodes@, old.next_entity),
        grown_by(old.surface_nodes@, new.surface_nodes@, old.next_entity),
    ensures
        new.wf(),
{
    let n = old.next_entity;
    lemma_table_spawn(old.storages@, new.storages@, n);
    lemma_table_spawn(old.net().edges, new.net().edges, n);
    lemma_table_spawn(old.converters@, new.converters@, n);
    lemma_table_spawn(old.net().bindings, new.net().bindings, n);
    lemma_table_spawn(old.relocating@, new.relocating@, n);
    lemma_table_spawn(old.astro_nodes@, new.astro_nodes@, n);
    lemma_table_spawn(old.surface_nodes@, new.surface_nodes@, n);
}

/// The simulation world: entity allocator, component tables and global resources.
pub struct World {
    /// Index the next spawned entity receives.
    pub next_entity: u32,
    /// Current discrete simulation tick.
    pub current_tick: CurrentTick,
    /// Storage components.
    pub storages: Vec<(Entity, Storage)>,
    /// Flow edges with their packet queues.
    pub edges: Vec<EdgeRow>,
    /// Converter components.
    pub converters: Vec<(Entity, Converter)>,
    /// Converter bindings components.
    pub bindings: Vec<(Entity, ConverterBindings)>,
    /// Relocation tags.
    pub relocating: Vec<(Entity, Relocating)>,
    /// Astronomical bodies.
    pub astro_nodes: Vec<(Entity, AstroNode)>,
    /// Surface nodes.
    pub surface_nodes: Vec<(Entity, SurfaceNode)>,
    /// Registry of conversion recipes.
    pub recipes: RecipeRegistry,
    /// Directory of resource definitions, when one was inserted.
    pub resource_directory: Option<ResourceDirectory>,
    /// Demands polled in phase 1.
    pub pending_demand: PendingDemand,
    /// Allocations decided in phase 2.
    pub flow_allocations: FlowAllocations,
    /// Errors collected during ticks.
    pub error_log: TickErrorLog,
}

impl World {
    /// The state that the tick pipeline reads and writes.
    pub open spec fn net(&self) -> NetState {
        NetState {
            tick: self.current_tick.0,
            storages: self.storages@,
            edges: self.edges@.map_values(|x: EdgeRow| edge_row_view(x)),
            converters: self.converters@,
            bindings: self.bindings@.map_values(|x: (Entity, ConverterBindings)| bindings_row_view(x)),
            relocating: self.relocating@,
            recipes: self.recipes@,
            demands: self.pending_demand.demands@,
            allocations: self.flow_allocations.allocations@,
            errors: error_views(self.error_log.errors@),
        }
    }

    /// The parts of the world outside the tick pipeline are equal in `self` and `other`.
    pub open spec fn same_outside_net(&self, other: &World) -> bool {
        &&& self.next_entity == other.next_entity
        &&& self.astro_nodes@ == other.astro_nodes@
        &&& self.surface_nodes@ == other.surface_nodes@
        &&& self.resource_directory == other.resource_directory
    }

    /// Well formed: every component table holds at most one row per entity, and only rows of
    /// entities already spawned.
    pub open spec fn wf(&self) -> bool {
        &&& table_ok(self.storages@, self.next_entity)
        &&& table_ok(self.net().edges, self.next_entity)
        &&& table_ok(self.converters@, self.next_entity)
        &&& table_ok(self.net().bindings, self.next_entity)
        &&& table_ok(self.relocating@, self.next_entity)
        &&& table_ok(self.astro_nodes@, self.next_entity)
        &&& table_ok(self.surface_nodes@, self.next_entity)
    }

    /// An empty world at tick zero with an empty recipe registry.
    pub fn new() -> (w: Self)
        ensures
            w.next_entity == 0,
            w.current_tick.0 == 0,
            w.storages@.len() == 0,
            w.edges@.len() == 0,
            w.converters@.len() == 0,
            w.bindings@.len() == 0,
            w.relocating@.len() == 0,
            w.astro_nodes@.len() == 0,
            w.surface_nodes@.len() == 0,
            w.recipes@ == Map::<u32, Recipe>::empty(),
            w.resource_directory.is_none(),
            w.pending_demand.demands@.len() == 0,
            w.flow_allocations.allocations@.len() == 0,
            w.error_log.errors@.len() == 0,
            w.wf(),
    {
        World {
            next_entity: 0,
            current_tick: CurrentTick(0),
            storages: Vec::new(),
            edges: Vec::new(),
            converters: Vec::new(),
            bindings: Vec::new(),
            relocating: Vec::new(),
            astro_nodes: Vec::new(),
            surface_nodes: Vec::new(),
            recipes: RecipeRegistry::new(),
            resource_directory: None,
            pending_demand: PendingDemand { demands: Vec::new() },
            flow_allocations: FlowAllocations { allocations: Vec::new() },
            error_log: TickErrorLog::new(),
        }
    }

    /// Allocates a fresh entity with no components.
    pub fn spawn_empty(&mut self) -> (e: Entity)
        requires
            old(self).next_entity < u32::MAX,
        ensures
            e.0 == old(self).next_entity,
            final(self).next_entity == old(self).next_entity + 1,
            final(self).net() == old(self).net(),
            final(self).astro_nodes@ == old(self).astro_nodes@,
            final(self).surface_nodes@ == old(self).surface_nodes@,
            final(self).resource_directory == old(self).resource_directory,
            old(self).wf() ==> final(self).wf(),
    {
        let e = Entity(self.next_entity);
        self.next_entity = self.next_entity + 1;
        proof {
            if old(self).wf() {
                lemma_world_spawned(*old(self), *self);
            }
        }
        e
    }

    /// Spawns an entity holding a storage.
    pub fn spawn_storage(&mut self, s: Storage) -> (e: Entity)
        requires
            old(self).next_entity < u32::MAX,
        ensures
            e.0 == old(self).next_entity,
            final(self).next_entity == old(self).next_entity + 1,
            final(self).storages@ == old(self).storages@.push((e, s)),
            final(self).net() == (NetState { storages: old(self).storages@.push((e, s)), ..old(self).net() }),
            final(self).astro_nodes@ == old(self).astro_nodes@,
            final(self).surface_nodes@ == old(self).surface_nodes@,
            final(self).resource_directory == old(self).resource_directory,
            old(self).wf() ==> final(self).wf(),
    {
        let e = self.spawn_empty();
        self.storages.push((e, s));
        proof {
            if old(self).wf() {
                lemma_world_spawned(*old(self), *self);
            }
        }
        e
    }

    /// Spawns an entity holding a flow edge and its queue.
    pub fn spawn_flow_edge(&mut self, edge: FlowEdge, queue: FlowQueue) -> (e: Entity)
        requires
            old(self).next_entity < u32::MAX,
        ensures
            e.0 == old(self).next_entity,
            final(self).next_entity == old(self).next_entity + 1,
            final(self).net() == (NetState {
                edges: old(self).net().edges.push((e, (edge, queue@))),
                ..old(self).net()
            }),
            final(self).astro_nodes@ == old(self).astro_nodes@,
            final(self).surface_nodes@ == old(self).surface_nodes@,
            final(self).resource_directory == old(self).resource_directory,
            old(self).wf() ==> final(self).wf(),
    {
        let e = self.spawn_empty();
        let ghost q = queue@;
        self.edges.push(EdgeRow { entity: e, edge, queue });
        assert(self.net().edges =~= old(self).net().edges.push((e, (edge, q))));
        proof {
            if old(self).wf() {
                lemma_world_spawned(*old(self), *self);
            }
        }
        e
    }

    /// Spawns an entity holding a converter (without bindings).
    pub fn spawn_converter(&mut self, c: Converter) -> (e: Entity)
        requires
            old(self).next_entity < u32::MAX,
        ensures
            e.0 == old(self).next_entity,
            final(self).next_entity == old(self).next_entity + 1,
            final(self).net() == (NetState { converters: old(self).converters@.push((e, c)), ..old(self).net() }),
            final(self).astro_nodes@ == old(self).astro_nodes@,
            final(self).surface_nodes@ == old(self).surface_nodes@,
            final(self).resource_directory == old(self).resource_directory,
            old(self).wf() ==> final(self).wf(),
    {
        let e = self.spawn_empty();
        self.converters.push((e, c));
        proof {
            if old(self).wf() {
                lemma_world_spawned(*old(self), *self);
            }
        }
        e
    }

    /// Spawns an entity holding a converter and its storage bindings.
    pub fn spawn_bound_converter(&mut self, c: Converter, b: ConverterBindings) -> (e: Entity)
        requires
            old(self).next_entity < u32::MAX,
        ensures
            e.0 == old(self).next_entity,
            final(self).next_entity == old(self).next_entity + 1,
            final(self).net() == (NetState {
                converters: old(self).converters@.push((e, c)),
                bindings: old(self).net().bindings.push((e, (b.inputs@, b.outputs@))),
                ..old(self).net()
            }),
            final(self).astro_nodes@ == old(self).astro_nodes@,
            final(self).surface_nodes@ == old(self).surface_nodes@,
            final(self).resource_directory == old(self).resource_directory,
            old(self).wf() ==> final(self).wf(),
    {
        let e = self.spawn_empty();
        let ghost bv = (b.inputs@, b.outputs@);
        self.converters.push((e, c));
        self.bindings.push((e, b));
        assert(self.net().bindings =~= old(self).net().bindings.push((e, bv)));
        proof {
            if old(self).wf() {
                lemma_world_spawned(*old(self), *self);
            }
        }
        e
    }

    /// Spawns an entity carrying a relocation tag.
    pub fn spawn_relocating(&mut self, r: Relocating) -> (e: Entity)
        requires
            old(self).next_entity < u32::MAX,
        ensures
            e.0 == old(self).next_entity,
            final(self).next_entity == old(self).next_entity + 1,
            final(self).net() == (NetState { relocating: old(self).relocating@.push((e, r)), ..old(self).net() }),
            final(self).astro_nodes@ == old(self).astro_nodes@,
            final(self).surface_nodes@ == old(self).surface_nodes@,
            final(self).resource_directory == old(self).resource_directory,
            old(self).wf() ==> final(self).wf(),
    {
        let e = self.spawn_empty();
        self.relocating.push((e, r));
        proof {
            if old(self).wf() {
                lemma_world_spawned(*old(self), *self);
            }
        }
        e
    }

    /// Spawns an entity holding an astronomical body.
    pub fn spawn_astro_node(&mut self, n: AstroNode) -> (e: Entity)
        requires
            old(self).next_entity < u32::MAX,
        ensures
            e.0 == old(self).next_entity,
            final(self).next_entity == old(self).next_entity + 1,
            final(self).astro_nodes@ == old(self).astro_nodes@.push((e, n)),
            final(self).net() == old(self).net(),
            final(self).surface_nodes@ == old(self).surface_nodes@,
            final(self).resource_directory == old(self).resource_directory,
            old(self).wf() ==> final(self).wf(),
    {
        let e = self.spawn_empty();
        self.astro_nodes.push((e, n));
        proof {
            if old(self).wf() {
                lemma_world_spawned(*old(self), *self);
            }
        }
        e
    }

    /// Spawns an entity holding a surface node.
    pub fn spawn_surface_node(&mut self, n: SurfaceNode) -> (e: Entity)
        requires
            old(self).next_entity < u32::MAX,
        ensures
            e.0 == old(self).next_entity,
            final(self).next_entity == old(self).next_entity + 1,
            final(self).surface_nodes@ == old(self).surface_nodes@.push((e, n)),
            final(self).net() == old(self).net(),
            final(self).astro_nodes@ == old(self).astro_nodes@,
            final(self).resource_directory == old(self).resource_directory,
            old(self).wf() ==> final(self).wf(),
    {
        let e = self.spawn_empty();
        self.surface_nodes.push((e, n));
        proof {
            if old(self).wf() {
                lemma_world_spawned(*old(self), *self);
            }
        }
        e
    }

    /// Gives entity `e` a storage component, replacing the one it had.
    pub fn insert_storage(&mut self, e: Entity, s: Storage)
        ensures
            match find_first(old(self).storages@, e) {
                Some(i) => final(self).storages@ == old(self).storages@.update(i, (e, s)),
                None => final(self).storages@ == old(self).storages@.push((e, s)),
            },
            final(self).net() == (NetState { storages: final(self).storages@, ..old(self).net() }),
            final(self).same_outside_net(old(self)),
            old(self).wf() && e.0 < old(self).next_entity ==> final(self).wf(),
    {
        match find_row(&self.storages, e) {
            Some(i) => {
                self.storages.set(i, (e, s));
            },
            None => {
                self.storages.push((e, s));
            },
        }
        proof {
            if old(self).wf() && e.0 < old(self).next_entity {
                lemma_table_insert(old(self).storages@, e, s, old(self).next_entity);
            }
        }
    }

    /// Gives entity `e` a converter component, replacing the one it had.
    pub fn insert_converter(&mut self, e: Entity, c: Converter)
        ensures
            match find_first(old(self).converters@, e) {
                Some(i) => final(self).converters@ == old(self).converters@.update(i, (e, c)),
                None => final(self).converters@ == old(self).converters@.push((e, c)),
            },
            final(self).net() == (NetState { converters: final(self).converters@, ..old(self).net() }),
            final(self).same_outside_net(old(self)),
            old(self).wf() && e.0 < old(self).next_entity ==> final(self).wf(),
    {
        match find_row(&self.converters, e) {
            Some(i) => {
                self.converters.set(i, (e, c));
            },
            None => {
                self.converters.push((e, c));
            },
        }
        proof {
            if old(self).wf() && e.0 < old(self).next_entity {
                lemma_table_insert(old(self).converters@, e, c, old(self).next_entity);
            }
        }
    }

    /// Gives entity `e` a surface node, replacing the one it had.
    pub fn insert_surface_node(&mut self, e: Entity, n: SurfaceNode)
        ensures
            match find_first(old(self).surface_nodes@, e) {
                Some(i) => final(self).surface_nodes@ == old(self).surface_nodes@.update(i, (e, n)),
                None => final(self).surface_nodes@ == old(self).surface_nodes@.push((e, n)),
            },
            final(self).net() == old(self).net(),
            final(self).next_entity == old(self).next_entity,
            final(self).astro_nodes@ == old(self).astro_nodes@,
            final(self).resource_directory == old(self).resource_directory,
            old(self).wf() && e.0 < old(self).next_entity ==> final(self).wf(),
    {
        match find_row(&self.surface_nodes, e) {
            Some(i) => {
                self.surface_nodes.set(i, (e, n));
            },
            None => {
                self.surface_nodes.push((e, n));
            },
        }
        proof {
            if old(self).wf() && e.0 < old(self).next_entity {
                lemma_table_insert(old(self).surface_nodes@, e, n, old(self).next_entity);
            }
        }
    }

    /// Replaces the recipe registry.
    pub fn insert_recipe_registry(&mut self, r: RecipeRegistry)
        ensures
            final(self).net() == (NetState { recipes: r@, ..old(self).net() }),
            final(self).same_outside_net(old(self)),
            old(self).wf() ==> final(self).wf(),
    {
        self.recipes = r;
    }

    /// Replaces the resource directory.
    pub fn insert_resource_directory(&mut self, d: ResourceDirectory)
        ensures
            final(self).net() == old(self).net(),
            final(self).resource_directory == Some(d),
            final(self).next_entity == old(self).next_entity,
            final(self).astro_nodes@ == old(self).astro_nodes@,
            final(self).surface_nodes@ == old(self).surface_nodes@,
            old(self).wf() ==> final(self).wf(),
    {
        self.resource_directory = Some(d);
    }

    /// The storage of entity `e`, if it has one.
    pub fn get_storage(&self, e: Entity) -> (r: Option<Storage>)
        ensures
            match find_first(self.storages@, e) {
                Some(i) => r == Some(self.storages@[i].1),
                None => r.is_none(),
            },
    {
        match find_row(&self.storages, e) {
            Some(i) => Some(self.storages[i].1),
            None => None,
        }
    }

    /// The packets queued on edge `e`, if it is an edge.
    pub fn get_flow_queue(&self, e: Entity) -> (r: Option<&FlowQueue>)
        ensures
            match find_first(self.net().edges, e) {
                Some(i) => r.is_some() && r.unwrap()@ == self.net().edges[i].1.1,
                None => r.is_none(),
            },
    {
        match find_edge_row(&self.edges, e) {
            Some(i) => Some(&self.edges[i].queue),
            None => None,
        }
    }

    /// The converter of entity `e`, if it has one.
    pub fn get_converter(&self, e: Entity) -> (r: Option<Converter>)
        ensures
            match find_first(self.converters@, e) {
                Some(i) => r == Some(self.converters@[i].1),
                None => r.is_none(),
            },
    {
        match find_row(&self.converters, e) {
            Some(i) => Some(self.converters[i].1),
            None => None,
        }
    }

    /// The relocation tag of entity `e`, if it carries one.
    pub fn get_relocating(&self, e: Entity) -> (r: Option<Relocating>)
        ensures
            match find_first(self.relocating@, e) {
                Some(i) => r == Some(self.relocating@[i].1),
                None => r.is_none(),
            },
    {
        match find_row(&self.relocating, e) {
            Some(i) => Some(self.relocating[i].1),
            None => None,
        }
    }

    /// The surface node of entity `e`, if it has one.
    pub fn get_surface_node(&self, e: Entity) -> (r: Option<SurfaceNode>)
        ensures
            match find_first(self.surface_nodes@, e) {
                Some(i) => r == Some(self.surface_nodes@[i].1),
                None => r.is_none(),
            },
    {
        match find_row(&self.surface_nodes, e) {
            Some(i) => Some(self.surface_nodes[i].1),
            None => None,
        }
    }

    /// The current tick.
    pub fn current_tick(&self) -> (t: u64)
        ensures
            t == self.current_tick.0,
    {
        self.current_tick.0
    }
}

} // verus!
