//! Deterministic generator of the standard economic scenario: a 40-resource economy of
//! mines, factories and population centres connected by latency-bearing flow edges.

use vstd::prelude::*;
use vstd::string::*;
use crate::dto::ResourceDto;
use crate::network::resources::{Recipe, RecipeIngredient, RecipeRegistry};
use crate::network::types::ResourceAmount;
use crate::network::components::{Converter, ConverterBindings, Entity, FlowEdge, FlowQueue, Storage, TransitPacket};
use crate::network::world::{bindings_row_view, edge_row_view, EdgeRow, NetState, ResourceDirectory, World};
use crate::text::{nat_digits, push_nat_digits};

verus! {

/// Name of resource `id` in the standard directory: raw resources 1..=10,
/// intermediate goods 11..=30, consumer goods 31..=40.
pub open spec fn resource_name(id: nat) -> Seq<char> {
    if id <= 10 {
        "Raw Resource "@ + nat_digits(id)
    } else if id <= 30 {
        "Intermediate Good "@ + nat_digits((id - 10) as nat)
    } else {
        "Consumer Good "@ + nat_digits((id - 30) as nat)
    }
}

fn resource_entry(prefix: &str, id: u32, number: u32) -> (r: ResourceDto)
    ensures
        r.id == id,
        r.name@ == prefix@ + nat_digits(number as nat),
{
    let mut name = String::from_str(prefix);
    push_nat_digits(&mut name, number as u128);
    ResourceDto { id, name }
}

/// The standard 40-resource directory, ordered by id.
pub fn create_resource_directory() -> (d: ResourceDirectory)
    ensures
        d.resources@.len() == 40,
        forall|k: int|
            0 <= k < 40 ==> (#[trigger] d.resources@[k]).id == k + 1 && d.resources@[k].name@ == resource_name(
                (k + 1) as nat,
            ),
{
    let mut resources: Vec<ResourceDto> = Vec::new();
    let mut i: u32 = 1;
    while i <= 40
        invariant
            1 <= i <= 41,
            resources@.len() == i - 1,
            forall|k: int|
                0 <= k < i - 1 ==> (#[trigger] resources@[k]).id == k + 1 && resources@[k].name@ == resource_name(
                    (k + 1) as nat,
                ),
        decreases 41 - i,
    {
        let entry = if i <= 10 {
            resource_entry("Raw Resource ", i, i)
        } else if i <= 30 {
            resource_entry("Intermediate Good ", i, i - 10)
        } else {
            resource_entry("Consumer Good ", i, i - 30)
        };
        resources.push(entry);
        i = i + 1;
    }
    ResourceDirectory::new(resources)
}

/// An ingredient of `amount` micro-units of element `element_id`.
pub open spec fn ingredient(element_id: int, amount: i64) -> RecipeIngredient {
    RecipeIngredient { element_id: element_id as u32, amount: ResourceAmount(amount) }
}

/// Ingredients of standard recipe `id`: mines (1..=10) need none; intermediate factories
/// (11..=30) take two raw resources; consumer factories (31..=40) take two intermediate
/// goods; population centres (41..=50) consume one consumer good.
pub open spec fn standard_inputs(id: int) -> Seq<RecipeIngredient> {
    if 11 <= id <= 30 {
        let j = id - 11;
        seq![ingredient(j % 10 + 1, 5_000_000), ingredient((j + 1) % 10 + 1, 5_000_000)]
    } else if 31 <= id <= 40 {
        let k = id - 31;
        seq![ingredient(11 + (k * 2) % 20, 5_000_000), ingredient(11 + (k * 2 + 1) % 20, 5_000_000)]
    } else if 41 <= id <= 50 {
        seq![ingredient(id - 10, 5_000_000)]
    } else {
        Seq::empty()
    }
}

/// Products of standard recipe `id`: ten units of resource `id` for recipes 1..=40,
/// nothing for population centres.
pub open spec fn standard_outputs(id: int) -> Seq<RecipeIngredient> {
    if 1 <= id <= 40 {
        seq![ingredient(id, 10_000_000)]
    } else {
        Seq::empty()
    }
}

/// `r` is standard recipe `id`.
pub open spec fn is_standard_recipe(r: Recipe, id: int) -> bool {
    r.id == id && r.inputs@ == standard_inputs(id) && r.outputs@ == standard_outputs(id)
}

fn ing(element_id: u32, amount: i64) -> (r: RecipeIngredient)
    ensures
        r == ingredient(element_id as int, amount),
{
    RecipeIngredient { element_id, amount: ResourceAmount(amount) }
}

/// Registers the fifty standard recipes (ids 1..=50), replacing recipes with those ids and
/// keeping all others.
pub fn register_recipes(registry: &mut RecipeRegistry)
    ensures
        forall|id: u32| 1 <= id <= 50 ==> #[trigger] final(registry)@.contains_key(id) && is_standard_recipe(
            final(registry)@[id],
            id as int,
        ),
        forall|id: u32|
            !(1 <= id <= 50) ==> (#[trigger] final(registry)@.contains_key(id) == old(registry)@.contains_key(id)
                && (old(registry)@.contains_key(id) ==> final(registry)@[id] == old(registry)@[id])),
{
    let mut id: u32 = 1;
    while id <= 50
        invariant
            1 <= id <= 51,
            forall|k: u32| 1 <= k < id ==> #[trigger] registry@.contains_key(k) && is_standard_recipe(registry@[k], k as int),
            forall|k: u32|
                !(1 <= k < id) ==> (#[trigger] registry@.contains_key(k) == old(registry)@.contains_key(k)
                    && (old(registry)@.contains_key(k) ==> registry@[k] == old(registry)@[k])),
        decreases 51 - id,
    {
        let recipe = if id <= 10 {
            Recipe { id, inputs: vec![], outputs: vec![ing(id, 10_000_000)] }
        } else if id <= 30 {
            let j = id - 11;
            Recipe {
                id,
                inputs: vec![ing(j % 10 + 1, 5_000_000), ing((j + 1) % 10 + 1, 5_000_000)],
                outputs: vec![ing(id, 10_000_000)],
            }
        } else if id <= 40 {
            let k = id - 31;
            Recipe {
                id,
                inputs: vec![ing(11 + (k * 2) % 20, 5_000_000), ing(11 + (k * 2 + 1) % 20, 5_000_000)],
                outputs: vec![ing(id, 10_000_000)],
            }
        } else {
            Recipe { id, inputs: vec![ing(id - 10, 5_000_000)], outputs: vec![] }
        };
        assert(recipe.inputs@ =~= standard_inputs(id as int));
        assert(recipe.outputs@ =~= standard_outputs(id as int));
        let ghost r = recipe;
        let ghost before = registry@;
        registry.register(recipe);
        assert forall|k: u32| 1 <= k < id + 1 implies #[trigger] registry@.contains_key(k) && is_standard_recipe(
            registry@[k],
            k as int,
        ) by {
            if k == id {
                assert(registry@[k] == r);
            } else {
                assert(before.contains_key(k));
                assert(registry@[k] == before[k]);
            }
        }
        id = id + 1;
    }
}

/// Storages of each resource id, in order of registration: `(resource id, storages)`.
pub type Topo = Seq<(u32, Seq<Entity>)>;

/// Converter topology: the output and input storages of each resource.
pub struct StorageTopology {
    /// Output storages grouped by resource id, in order of first appearance.
    pub outputs: Vec<(u32, Vec<Entity>)>,
    /// Input storages grouped by resource id, in order of first appearance.
    pub inputs: Vec<(u32, Vec<Entity>)>,
}

/// Mathematical content of a topology table.
pub open spec fn topo_view(t: Seq<(u32, Vec<Entity>)>) -> Topo {
    t.map_values(|x: (u32, Vec<Entity>)| (x.0, x.1@))
}

/// Index of the first entry at or after `j` for resource `key`.
pub open spec fn find_key(t: Topo, key: u32, j: int) -> Option<int>
    decreases t.len() - j,
{
    if j < 0 || j >= t.len() {
        None
    } else if t[j].0 == key {
        Some(j)
    } else {
        find_key(t, key, j + 1)
    }
}

/// Records storage `e` under resource `key`.
pub open spec fn topo_add(t: Topo, key: u32, e: Entity) -> Topo {
    match find_key(t, key, 0) {
        Some(i) => t.update(i, (key, t[i].1.push(e))),
        None => t.push((key, seq![e])),
    }
}

/// Records the storages `first, first+1, ...` under the elements of `reqs`, in order.
pub open spec fn topo_add_all(t: Topo, first: int, reqs: Seq<RecipeIngredient>) -> Topo
    decreases reqs.len(),
{
    if reqs.len() == 0 {
        t
    } else {
        topo_add(topo_add_all(t, first, reqs.drop_last()), reqs.last().element_id, Entity((first + reqs.len() - 1) as u32))
    }
}

/// Storages `first, first+1, ...` for the elements of `reqs`, each holding `amount` of a
/// capacity of 1,000 units.
pub open spec fn stock_rows(first: int, reqs: Seq<RecipeIngredient>, amount: i64) -> Seq<(Entity, Storage)> {
    Seq::new(
        reqs.len(),
        |m: int|
            (
                Entity((first + m) as u32),
                Storage {
                    element_id: reqs[m].element_id,
                    current_amount: ResourceAmount(amount),
                    capacity: ResourceAmount(1_000_000_000),
                },
            ),
    )
}

/// The entities `first, first+1, ..., first+n-1`.
pub open spec fn entities_from(first: int, n: int) -> Seq<Entity> {
    Seq::new(n as nat, |m: int| Entity((first + m) as u32))
}

/// What the scenario builder tracks while spawning converters.
pub struct BuildState {
    pub next: int,
    pub storages: Seq<(Entity, Storage)>,
    pub converters: Seq<(Entity, Converter)>,
    pub bindings: Seq<(Entity, (Seq<Entity>, Seq<Entity>))>,
    pub outputs: Topo,
    pub inputs: Topo,
}

/// Spawning one converter instance of `r`: one input storage per ingredient (50 units held),
/// one output storage per product (20 units held), then the converter at full health
/// bound to them.
pub open spec fn instance_step(s: BuildState, r: Recipe) -> BuildState {
    let ni = r.inputs@.len() as int;
    let no = r.outputs@.len() as int;
    let conv = Entity((s.next + ni + no) as u32);
    BuildState {
        next: s.next + ni + no + 1,
        storages: s.storages + stock_rows(s.next, r.inputs@, 50_000_000) + stock_rows(
            s.next + ni,
            r.outputs@,
            20_000_000,
        ),
        converters: s.converters.push((conv, Converter { recipe_id: r.id, health: 10_000, operational_status: true })),
        bindings: s.bindings.push((conv, (entities_from(s.next, ni), entities_from(s.next + ni, no)))),
        outputs: topo_add_all(s.outputs, s.next + ni, r.outputs@),
        inputs: topo_add_all(s.inputs, s.next, r.inputs@),
    }
}

/// Recipe of converter instance `k` of the scenario: 5 mines per raw resource, 3 factories
/// per intermediate good, 4 factories per consumer good, 5 population centres per consumer good.
pub open spec fn instance_recipe(k: int) -> int {
    if k < 50 {
        k / 5 + 1
    } else if k < 110 {
        11 + (k - 50) / 3
    } else if k < 150 {
        31 + (k - 110) / 4
    } else {
        41 + (k - 150) / 5
    }
}

/// Number of converter instances in the scenario.
pub const SCENARIO_INSTANCES: u32 = 200;

/// The builder state after spawning the first `k` instances.
pub open spec fn instances_upto(s: BuildState, recipes: Map<u32, Recipe>, k: int) -> BuildState
    decreases k,
{
    if k <= 0 {
        s
    } else {
        instance_step(instances_upto(s, recipes, k - 1), recipes[instance_recipe(k - 1) as u32])
    }
}

/// The builder state of a world and topology.
pub open spec fn build_state(w: &World, t: &StorageTopology) -> BuildState {
    BuildState {
        next: w.next_entity as int,
        storages: w.storages@,
        converters: w.converters@,
        bindings: w.net().bindings,
        outputs: topo_view(t.outputs@),
        inputs: topo_view(t.inputs@),
    }
}

/// Everything of the world but its entity counter, storages, converters and bindings is unchanged.
pub open spec fn rest_unchanged(a: &World, b: &World) -> bool {
    &&& a.net().tick == b.net().tick
    &&& a.net().edges == b.net().edges
    &&& a.net().relocating == b.net().relocating
    &&& a.net().recipes == b.net().recipes
    &&& a.net().demands == b.net().demands
    &&& a.net().allocations == b.net().allocations
    &&& a.net().errors == b.net().errors
    &&& a.astro_nodes@ == b.astro_nodes@
    &&& a.surface_nodes@ == b.surface_nodes@
    &&& a.resource_directory == b.resource_directory
}

fn topo_push(t: &mut Vec<(u32, Vec<Entity>)>, key: u32, e: Entity)
    ensures
        topo_view(final(t)@) == topo_add(topo_view(old(t)@), key, e),
{
    let ghost v = topo_view(t@);
    let mut j: usize = 0;
    while j < t.len()
        invariant
            v == topo_view(t@),
            t@ == old(t)@,
            j <= t@.len(),
            find_key(v, key, 0) == find_key(v, key, j as int),
        decreases t.len() - j,
    {
        if t[j].0 == key {
            t[j].1.push(e);
            assert(topo_view(t@) =~= v.update(j as int, (key, v[j as int].1.push(e))));
            return;
        }
        j = j + 1;
    }
    let mut list: Vec<Entity> = Vec::new();
    list.push(e);
    t.push((key, list));
    assert(topo_view(t@) =~= v.push((key, seq![e])));
}

fn spawn_stock(w: &mut World, element_id: u32, amount: i64) -> (e: Entity)
    requires
        old(w).next_entity < u32::MAX,
        0 <= amount <= 1_000_000_000,
    ensures
        e.0 == old(w).next_entity,
        final(w).next_entity == old(w).next_entity + 1,
        final(w).storages@ == old(w).storages@.push(
            (
                e,
                Storage {
                    element_id,
                    current_amount: ResourceAmount(amount),
                    capacity: ResourceAmount(1_000_000_000),
                },
            ),
        ),
        final(w).converters@ == old(w).converters@,
        final(w).net().bindings == old(w).net().bindings,
        rest_unchanged(final(w), old(w)),
{
    let s = match Storage::new(element_id, ResourceAmount(amount), ResourceAmount(1_000_000_000)) {
        Ok(s) => s,
        Err(_) => {
            assert(false);
            Storage {
                element_id,
                current_amount: ResourceAmount(amount),
                capacity: ResourceAmount(1_000_000_000),
            }
        },
    };
    w.spawn_storage(s)
}

/// Spawns one converter instance of `recipe` with its input and output storages, and
/// records those storages in the topology.
pub fn spawn_converter_instance(w: &mut World, recipe: &Recipe, topology: &mut StorageTopology)
    requires
        old(w).next_entity + recipe.inputs@.len() + recipe.outputs@.len() + 1 <= u32::MAX,
    ensures
        build_state(final(w), final(topology)) == instance_step(build_state(old(w), old(topology)), *recipe),
        rest_unchanged(final(w), old(w)),
{
    let ghost s0 = build_state(w, topology);
    let ghost ins = recipe.inputs@;
    let ghost outs = recipe.outputs@;
    let ni = recipe.inputs.len();
    let no = recipe.outputs.len();
    let mut in_entities: Vec<Entity> = Vec::new();
    let mut k: usize = 0;
    while k < ni
        invariant
            ni == ins.len(),
            no == outs.len(),
            ins == recipe.inputs@,
            s0.next + ni + no + 1 <= u32::MAX,
            k <= ni,
            w.next_entity == s0.next + k,
            w.storages@ == s0.storages + stock_rows(s0.next, ins.take(k as int), 50_000_000),
            w.converters@ == s0.converters,
            w.net().bindings == s0.bindings,
            in_entities@ == entities_from(s0.next, k as int),
            topo_view(topology.inputs@) == topo_add_all(s0.inputs, s0.next, ins.take(k as int)),
            topo_view(topology.outputs@) == s0.outputs,
            rest_unchanged(w, old(w)),
        decreases ni - k,
    {
        let req = recipe.inputs[k];
        let e = spawn_stock(w, req.element_id, 50_000_000);
        in_entities.push(e);
        topo_push(&mut topology.inputs, req.element_id, e);
        proof {
            assert(ins.take(k + 1).drop_last() =~= ins.take(k as int));
            assert(w.storages@ =~= s0.storages + stock_rows(s0.next, ins.take(k + 1), 50_000_000));
            assert(in_entities@ =~= entities_from(s0.next, k + 1));
        }
        k = k + 1;
    }
    assert(ins.take(ni as int) =~= ins);
    let mut out_entities: Vec<Entity> = Vec::new();
    let mut k: usize = 0;
    while k < no
        invariant
            ni == ins.len(),
            no == outs.len(),
            outs == recipe.outputs@,
            s0.next + ni + no + 1 <= u32::MAX,
            k <= no,
            w.next_entity == s0.next + ni + k,
            w.storages@ == s0.storages + stock_rows(s0.next, ins, 50_000_000) + stock_rows(
                s0.next + ni,
                outs.take(k as int),
                20_000_000,
            ),
            w.converters@ == s0.converters,
            w.net().bindings == s0.bindings,
            in_entities@ == entities_from(s0.next, ni as int),
            out_entities@ == entities_from(s0.next + ni, k as int),
            topo_view(topology.inputs@) == topo_add_all(s0.inputs, s0.next, ins),
            topo_view(topology.outputs@) == topo_add_all(s0.outputs, s0.next + ni, outs.take(k as int)),
            rest_unchanged(w, old(w)),
        decreases no - k,
    {
        let req = recipe.outputs[k];
        let e = spawn_stock(w, req.element_id, 20_000_000);
        out_entities.push(e);
        topo_push(&mut topology.outputs, req.element_id, e);
        proof {
            assert(outs.take(k + 1).drop_last() =~= outs.take(k as int));
            assert(w.storages@ =~= s0.storages + stock_rows(s0.next, ins, 50_000_000) + stock_rows(
                s0.next + ni,
                outs.take(k + 1),
                20_000_000,
            ));
            assert(out_entities@ =~= entities_from(s0.next + ni, k + 1));
        }
        k = k + 1;
    }
    assert(outs.take(no as int) =~= outs);
    let ghost iv = in_entities@;
    let ghost ov = out_entities@;
    let conv = Converter::new(recipe.id, 10_000, true);
    w.spawn_bound_converter(conv, ConverterBindings::new(in_entities, out_entities));
    assert(build_state(w, topology) =~= instance_step(s0, *recipe));
}

/// Recipe id of converter instance `k` (computed as `instance_recipe`).
fn instance_recipe_id(k: u32) -> (id: u32)
    requires
        k < SCENARIO_INSTANCES,
    ensures
        id == instance_recipe(k as int),
        1 <= id <= 50,
{
    if k < 50 {
        k / 5 + 1
    } else if k < 110 {
        11 + (k - 50) / 3
    } else if k < 150 {
        31 + (k - 110) / 4
    } else {
        41 + (k - 150) / 5
    }
}

/// Entities spawned for the first `k` converter instances.
pub open spec fn instance_entities(k: int) -> int {
    if k <= 50 {
        2 * k
    } else if k <= 150 {
        100 + 4 * (k - 50)
    } else {
        500 + 2 * (k - 150)
    }
}

/// Every standard recipe id 1..=50 is registered with its standard definition.
pub open spec fn has_standard_recipes(recipes: Map<u32, Recipe>) -> bool {
    forall|id: u32| 1 <= id <= 50 ==> #[trigger] recipes.contains_key(id) && is_standard_recipe(recipes[id], id as int)
}

proof fn lemma_instances_next(s: BuildState, recipes: Map<u32, Recipe>, k: int)
    requires
        0 <= k <= 200,
        has_standard_recipes(recipes),
    ensures
        instances_upto(s, recipes, k).next == s.next + instance_entities(k),
    decreases k,
{
    if k > 0 {
        lemma_instances_next(s, recipes, k - 1);
        let id = instance_recipe(k - 1);
        assert(1 <= id <= 50) by {
            if k - 1 < 50 {
                assert((k - 1) / 5 <= 9);
            } else if k - 1 < 110 {
                assert((k - 1 - 50) / 3 <= 19);
            } else if k - 1 < 150 {
                assert((k - 1 - 110) / 4 <= 9);
            } else {
                assert((k - 1 - 150) / 5 <= 9);
            }
        }
        assert(recipes.contains_key(id as u32));
        let r = recipes[id as u32];
        assert(is_standard_recipe(r, id));
    }
}

/// Spawns the scenario's 200 converter instances (50 mines, 60 intermediate factories,
/// 40 consumer factories, 50 population centres) with their storages; returns their topology.
pub fn spawn_converters_and_storages(w: &mut World, registry: &RecipeRegistry) -> (t: StorageTopology)
    requires
        has_standard_recipes(registry@),
        old(w).next_entity + 600 <= u32::MAX,
    ensures
        build_state(final(w), &t) == instances_upto(
            BuildState {
                next: old(w).next_entity as int,
                storages: old(w).storages@,
                converters: old(w).converters@,
                bindings: old(w).net().bindings,
                outputs: Seq::empty(),
                inputs: Seq::empty(),
            },
            registry@,
            200,
        ),
        final(w).next_entity == old(w).next_entity + 600,
        rest_unchanged(final(w), old(w)),
{
    let mut t = StorageTopology { outputs: Vec::new(), inputs: Vec::new() };
    let ghost s0 = build_state(w, &t);
    assert(topo_view(t.outputs@) =~= Seq::empty());
    assert(topo_view(t.inputs@) =~= Seq::empty());
    let mut k: u32 = 0;
    while k < SCENARIO_INSTANCES
        invariant
            has_standard_recipes(registry@),
            s0.next + 600 <= u32::MAX,
            k <= 200,
            build_state(w, &t) == instances_upto(s0, registry@, k as int),
            rest_unchanged(w, old(w)),
        decreases 200 - k,
    {
        let id = instance_recipe_id(k);
        proof {
            lemma_instances_next(s0, registry@, k as int);
            lemma_instances_next(s0, registry@, k + 1);
            assert(registry@.contains_key(id));
            assert(is_standard_recipe(registry@[id], id as int));
        }
        match registry.get(id) {
            Some(recipe) => {
                spawn_converter_instance(w, recipe, &mut t);
            },
            None => {
                assert(false);
            },
        }
        k = k + 1;
    }
    proof {
        lemma_instances_next(s0, registry@, 200);
    }
    t
}

/// Builder state while spawning flow edges: next entity, edges so far, edges spawned.
pub struct EdgeBuild {
    pub next: int,
    pub edges: Seq<(Entity, (FlowEdge, Seq<TransitPacket>))>,
    pub count: int,
}

/// Spawning the edge from output storage `src` to input storage `dest`: 20 units per tick,
/// lossless, latency cycling through 1, 2, 3.
pub open spec fn edge_step(b: EdgeBuild, src: Entity, dest: Entity) -> EdgeBuild {
    EdgeBuild {
        next: b.next + 1,
        edges: b.edges.push(
            (
                Entity(b.next as u32),
                (
                    FlowEdge {
                        source: src,
                        destination: dest,
                        max_throughput: ResourceAmount(20_000_000),
                        latency: (1 + b.count % 3) as u64,
                        efficiency_millionths: 1_000_000,
                    },
                    Seq::empty(),
                ),
            ),
        ),
        count: b.count + 1,
    }
}

/// Edges into the first `n` input storages of one resource, the `i`-th fed by output
/// storage `i mod |outs|`.
pub open spec fn edges_into(b: EdgeBuild, outs: Seq<Entity>, dests: Seq<Entity>, n: int) -> EdgeBuild
    decreases n,
{
    if n <= 0 {
        b
    } else {
        edge_step(edges_into(b, outs, dests, n - 1), outs[(n - 1) % (outs.len() as int)], dests[n - 1])
    }
}

/// Edges for one resource entry of the input topology (none when no output storage makes it).
pub open spec fn edges_for_entry(b: EdgeBuild, outputs: Topo, entry: (u32, Seq<Entity>)) -> EdgeBuild {
    match find_key(outputs, entry.0, 0) {
        None => b,
        Some(oi) => if outputs[oi].1.len() == 0 {
            b
        } else {
            edges_into(b, outputs[oi].1, entry.1, entry.1.len() as int)
        },
    }
}

/// Edges into the input storages of one resource are dealt round robin over its output
/// storages: the edge into the `i`-th input storage (`i < n`) starts at output storage
/// `i mod |outs|`, ends at input storage `i`, carries no packet, and the edges already built
/// are kept.
pub proof fn law_edges_round_robin(b: EdgeBuild, outs: Seq<Entity>, dests: Seq<Entity>, n: int)
    requires
        outs.len() > 0,
        0 <= n <= dests.len(),
    ensures
        edges_into(b, outs, dests, n).edges.len() == b.edges.len() + n,
        forall|j: int| 0 <= j < b.edges.len() ==> #[trigger] edges_into(b, outs, dests, n).edges[j] == b.edges[j],
        forall|j: int|
            b.edges.len() <= j < b.edges.len() + n ==> (#[trigger] edges_into(b, outs, dests, n).edges[j]).1.0.source
                == outs[(j - b.edges.len()) % (outs.len() as int)] && edges_into(b, outs, dests, n).edges[j].1.0.destination
                == dests[j - b.edges.len()] && edges_into(b, outs, dests, n).edges[j].1.1.len() == 0,
    decreases n,
{
    if n > 0 {
        law_edges_round_robin(b, outs, dests, n - 1);
        let p = edges_into(b, outs, dests, n - 1);
        let r = edges_into(b, outs, dests, n);
        assert(r == edge_step(p, outs[(n - 1) % (outs.len() as int)], dests[n - 1]));
        assert forall|j: int| 0 <= j < b.edges.len() implies #[trigger] r.edges[j] == b.edges[j] by {
            assert(r.edges[j] == p.edges[j]);
        }
        assert forall|j: int| b.edges.len() <= j < b.edges.len() + n implies (#[trigger] r.edges[j]).1.0.source
            == outs[(j - b.edges.len()) % (outs.len() as int)] && r.edges[j].1.0.destination == dests[j - b.edges.len()]
            && r.edges[j].1.1.len() == 0 by {
            if j < b.edges.len() + n - 1 {
                assert(r.edges[j] == p.edges[j]);
            }
        }
    }
}

/// For a resource with at least one output storage, the edges spawned for it feed its `i`-th
/// input storage from its `(i mod n)`-th output storage, `n` being its number of output
/// storages (round robin over all its producers).
pub proof fn law_resource_edges_round_robin(b: EdgeBuild, outputs: Topo, entry: (u32, Seq<Entity>), oi: int)
    requires
        find_key(outputs, entry.0, 0) == Some(oi),
        outputs[oi].1.len() > 0,
    ensures
        edges_for_entry(b, outputs, entry).edges.len() == b.edges.len() + entry.1.len(),
        forall|j: int|
            b.edges.len() <= j < b.edges.len() + entry.1.len() ==> (#[trigger] edges_for_entry(b, outputs, entry).edges[j]).1.0.source
                == outputs[oi].1[(j - b.edges.len()) % (outputs[oi].1.len() as int)] && edges_for_entry(
                b,
                outputs,
                entry,
            ).edges[j].1.0.destination == entry.1[j - b.edges.len()],
{
    law_edges_round_robin(b, outputs[oi].1, entry.1, entry.1.len() as int);
}

/// Edges for the first `k` entries of the input topology.
pub open spec fn edges_upto(b: EdgeBuild, outputs: Topo, inputs: Topo, k: int) -> EdgeBuild
    decreases k,
{
    if k <= 0 {
        b
    } else {
        edges_for_entry(edges_upto(b, outputs, inputs, k - 1), outputs, inputs[k - 1])
    }
}

/// Total number of storages recorded in a topology.
pub open spec fn topo_total(t: Topo) -> int
    decreases t.len(),
{
    if t.len() == 0 {
        0
    } else {
        topo_total(t.drop_last()) + t.last().1.len()
    }
}

proof fn lemma_edges_into_count(b: EdgeBuild, outs: Seq<Entity>, dests: Seq<Entity>, n: int)
    requires
        n >= 0,
    ensures
        edges_into(b, outs, dests, n).next == b.next + n,
        edges_into(b, outs, dests, n).count == b.count + n,
    decreases n,
{
    if n > 0 {
        lemma_edges_into_count(b, outs, dests, n - 1);
    }
}

proof fn lemma_edges_upto_count(b: EdgeBuild, outputs: Topo, inputs: Topo, k: int)
    requires
        0 <= k <= inputs.len(),
    ensures
        b.next <= edges_upto(b, outputs, inputs, k).next <= b.next + topo_total(inputs.take(k)),
        edges_upto(b, outputs, inputs, k).next - b.next == edges_upto(b, outputs, inputs, k).count - b.count,
    decreases k,
{
    if k > 0 {
        lemma_edges_upto_count(b, outputs, inputs, k - 1);
        assert(inputs.take(k).drop_last() =~= inputs.take(k - 1));
        let e = inputs[k - 1];
        let prev = edges_upto(b, outputs, inputs, k - 1);
        lemma_edges_into_count(prev, outputs[find_key(outputs, e.0, 0).unwrap_or(0)].1, e.1, e.1.len() as int);
    }
}

proof fn lemma_topo_add_total(t: Topo, key: u32, e: Entity)
    ensures
        topo_total(topo_add(t, key, e)) == topo_total(t) + 1,
{
    match find_key(t, key, 0) {
        Some(i) => {
            lemma_find_key(t, key, 0);
            lemma_topo_total_update(t, i, (key, t[i].1.push(e)));
        },
        None => {
            assert(t.push((key, seq![e])).drop_last() =~= t);
        },
    }
}

proof fn lemma_find_key(t: Topo, key: u32, j: int)
    requires
        0 <= j,
    ensures
        find_key(t, key, j) matches Some(k) ==> j <= k < t.len() && t[k].0 == key,
    decreases t.len() - j,
{
    if j < t.len() && t[j].0 != key {
        lemma_find_key(t, key, j + 1);
    }
}

proof fn lemma_topo_total_update(t: Topo, i: int, x: (u32, Seq<Entity>))
    requires
        0 <= i < t.len(),
    ensures
        topo_total(t.update(i, x)) == topo_total(t) - t[i].1.len() + x.1.len(),
    decreases t.len(),
{
    if i < t.len() - 1 {
        assert(t.update(i, x).drop_last() =~= t.drop_last().update(i, x));
        lemma_topo_total_update(t.drop_last(), i, x);
    } else {
        assert(t.update(i, x).drop_last() =~= t.drop_last());
    }
}

proof fn lemma_topo_add_all_total(t: Topo, first: int, reqs: Seq<RecipeIngredient>)
    ensures
        topo_total(topo_add_all(t, first, reqs)) == topo_total(t) + reqs.len(),
    decreases reqs.len(),
{
    if reqs.len() > 0 {
        lemma_topo_add_all_total(t, first, reqs.drop_last());
        lemma_topo_add_total(
            topo_add_all(t, first, reqs.drop_last()),
            reqs.last().element_id,
            Entity((first + reqs.len() - 1) as u32),
        );
    }
}

/// Input storages recorded for the first `k` converter instances.
pub open spec fn instance_inputs(k: int) -> int {
    if k <= 50 {
        0
    } else if k <= 150 {
        2 * (k - 50)
    } else {
        200 + (k - 150)
    }
}

proof fn lemma_instances_inputs(s: BuildState, recipes: Map<u32, Recipe>, k: int)
    requires
        0 <= k <= 200,
        has_standard_recipes(recipes),
    ensures
        topo_total(instances_upto(s, recipes, k).inputs) == topo_total(s.inputs) + instance_inputs(k),
    decreases k,
{
    if k > 0 {
        lemma_instances_inputs(s, recipes, k - 1);
        let id = instance_recipe(k - 1);
        assert(1 <= id <= 50) by {
            if k - 1 < 50 {
                assert((k - 1) / 5 <= 9);
            } else if k - 1 < 110 {
                assert((k - 1 - 50) / 3 <= 19);
            } else if k - 1 < 150 {
                assert((k - 1 - 110) / 4 <= 9);
            } else {
                assert((k - 1 - 150) / 5 <= 9);
            }
        }
        assert(recipes.contains_key(id as u32));
        let r = recipes[id as u32];
        assert(is_standard_recipe(r, id));
        let prev = instances_upto(s, recipes, k - 1);
        lemma_topo_add_all_total(prev.inputs, prev.next, r.inputs@);
    }
}

/// Spawns one flow edge per input storage of every resource that some output storage
/// makes, fed round-robin by that resource's output storages.
pub fn spawn_flow_edges(w: &mut World, topology: &StorageTopology)
    requires
        old(w).next_entity + topo_total(topo_view(topology.inputs@)) <= u32::MAX,
    ensures
        ({
            let b = edges_upto(
                EdgeBuild { next: old(w).next_entity as int, edges: old(w).net().edges, count: 0 },
                topo_view(topology.outputs@),
                topo_view(topology.inputs@),
                topology.inputs@.len() as int,
            );
            &&& final(w).next_entity == b.next
            &&& final(w).net() == (NetState { edges: b.edges, ..old(w).net() })
        }),
        final(w).astro_nodes@ == old(w).astro_nodes@,
        final(w).surface_nodes@ == old(w).surface_nodes@,
        final(w).resource_directory == old(w).resource_directory,
{
    let ghost outs_t = topo_view(topology.outputs@);
    let ghost ins_t = topo_view(topology.inputs@);
    let ghost b0 = EdgeBuild { next: w.next_entity as int, edges: w.net().edges, count: 0 };
    let mut counter: u64 = 0;
    let mut k: usize = 0;
    proof {
        lemma_edges_upto_count(b0, outs_t, ins_t, ins_t.len() as int);
        assert(ins_t.take(ins_t.len() as int) =~= ins_t);
    }
    while k < topology.inputs.len()
        invariant
            outs_t == topo_view(topology.outputs@),
            ins_t == topo_view(topology.inputs@),
            b0.next + topo_total(ins_t) <= u32::MAX,
            k <= ins_t.len(),
            ({
                let b = edges_upto(b0, outs_t, ins_t, k as int);
                &&& w.next_entity == b.next
                &&& w.net().edges == b.edges
                &&& counter == b.count
            }),
            counter == w.next_entity - b0.next,
            b0.next == old(w).next_entity,
            w.net() == (NetState { edges: w.net().edges, ..old(w).net() }),
            w.astro_nodes@ == old(w).astro_nodes@,
            w.surface_nodes@ == old(w).surface_nodes@,
            w.resource_directory == old(w).resource_directory,
        decreases topology.inputs.len() - k,
    {
        let ghost bk = edges_upto(b0, outs_t, ins_t, k as int);
        proof {
            lemma_edges_upto_count(b0, outs_t, ins_t, k + 1);
            lemma_topo_prefix_total(ins_t, k + 1);
        }
        let key = topology.inputs[k].0;
        let mut oi: usize = 0;
        let mut found = false;
        while oi < topology.outputs.len() && !found
            invariant
                outs_t == topo_view(topology.outputs@),
                oi <= outs_t.len(),
                found ==> oi < outs_t.len() && outs_t[oi as int].0 == key && find_key(outs_t, key, 0) == Some(oi as int),
                !found ==> find_key(outs_t, key, 0) == find_key(outs_t, key, oi as int),
            decreases outs_t.len() - oi + if found { 0int } else { 1int },
        {
            if topology.outputs[oi].0 == key {
                found = true;
            } else {
                oi = oi + 1;
            }
        }
        if found && topology.outputs[oi].1.len() > 0 {
            let dests = &topology.inputs[k].1;
            let srcs = &topology.outputs[oi].1;
            let ghost dv = dests@;
            let ghost sv = srcs@;
            let mut idx: usize = 0;
            proof {
                lemma_edges_into_count(bk, sv, dv, dv.len() as int);
            }
            while idx < dests.len()
                invariant
                    dv == dests@,
                    sv == srcs@,
                    sv.len() > 0,
                    idx <= dv.len(),
                    bk.next + dv.len() <= u32::MAX,
                    ({
                        let b = edges_into(bk, sv, dv, idx as int);
                        &&& w.next_entity == b.next
                        &&& w.net().edges == b.edges
                        &&& counter == b.count
                    }),
                    counter == w.next_entity - b0.next,
                    b0.next == old(w).next_entity,
            b0.next == old(w).next_entity,
                    w.net() == (NetState { edges: w.net().edges, ..old(w).net() }),
                    w.astro_nodes@ == old(w).astro_nodes@,
                    w.surface_nodes@ == old(w).surface_nodes@,
                    w.resource_directory == old(w).resource_directory,
                decreases dv.len() - idx,
            {
                proof {
                    lemma_edges_into_count(bk, sv, dv, idx as int);
                }
                let src = srcs[idx % srcs.len()];
                assert(edges_into(bk, sv, dv, idx as int).next == bk.next + idx);
                assert(w.next_entity == bk.next + idx);
                assert(w.next_entity < u32::MAX);
                assert(counter < u32::MAX);
                let latency = 1 + (counter % 3);
                w.spawn_flow_edge(
                    FlowEdge {
                        source: src,
                        destination: dests[idx],
                        max_throughput: ResourceAmount(20_000_000),
                        latency,
                        efficiency_millionths: 1_000_000,
                    },
                    FlowQueue::new(),
                );
                counter = counter + 1;
                idx = idx + 1;
            }
        }
        k = k + 1;
    }
}

proof fn lemma_topo_prefix_total(t: Topo, k: int)
    requires
        0 <= k <= t.len(),
    ensures
        topo_total(t.take(k)) <= topo_total(t),
        k > 0 ==> topo_total(t.take(k)) == topo_total(t.take(k - 1)) + t[k - 1].1.len(),
    decreases t.len(),
{
    if k > 0 {
        assert(t.take(k).drop_last() =~= t.take(k - 1));
    }
    if k < t.len() {
        lemma_topo_prefix_total(t.drop_last(), k);
        assert(t.drop_last().take(k) =~= t.take(k));
    } else {
        assert(t.take(k) =~= t);
    }
}

/// The standard directory: 40 resources with ids 1..=40 and their standard names.
pub open spec fn is_standard_directory(d: ResourceDirectory) -> bool {
    &&& d.resources@.len() == 40
    &&& forall|k: int|
        0 <= k < 40 ==> (#[trigger] d.resources@[k]).id == k + 1 && d.resources@[k].name@ == resource_name(
            (k + 1) as nat,
        )
}

/// The world parts the scenario builds, from the builder's point of view.
pub open spec fn scenario_build(w: &World, recipes: Map<u32, Recipe>) -> (BuildState, EdgeBuild) {
    let bs = instances_upto(
        BuildState {
            next: w.next_entity as int,
            storages: w.storages@,
            converters: w.converters@,
            bindings: w.net().bindings,
            outputs: Seq::empty(),
            inputs: Seq::empty(),
        },
        recipes,
        200,
    );
    let eb = edges_upto(
        EdgeBuild { next: bs.next, edges: w.net().edges, count: 0 },
        bs.outputs,
        bs.inputs,
        bs.inputs.len() as int,
    );
    (bs, eb)
}

/// The standard recipes form a closed supply chain: every ingredient of a factory or
/// population centre is an element (1..=40) that the recipe of the same id produces, and
/// population centre `c` (41..=50) consumes exactly one ingredient, 5 units of the consumer
/// good `c - 10` (31..=40) made by consumer factory `c - 10`, producing nothing.
pub proof fn law_supply_chain_closed(r: Map<u32, Recipe>)
    requires
        has_standard_recipes(r),
    ensures
        forall|id: u32, k: int|
            11 <= id <= 50 && 0 <= k < r[id].inputs@.len() ==> 1 <= (#[trigger] r[id].inputs@[k]).element_id <= 40
                && r[r[id].inputs@[k].element_id].outputs@.len() == 1 && r[r[id].inputs@[k].element_id].outputs@[0].element_id
                == r[id].inputs@[k].element_id,
        forall|c: u32|
            41 <= c <= 50 ==> (#[trigger] r[c]).inputs@.len() == 1 && r[c].inputs@[0].element_id == c - 10
                && r[c].inputs@[0].amount.0 == 5_000_000 && r[c].outputs@.len() == 0 && r[(c - 10) as u32].outputs@.len()
                == 1 && r[(c - 10) as u32].outputs@[0].element_id == c - 10,
{
    assert forall|id: u32, k: int|
        11 <= id <= 50 && 0 <= k < r[id].inputs@.len() implies 1 <= (#[trigger] r[id].inputs@[k]).element_id <= 40
            && r[r[id].inputs@[k].element_id].outputs@.len() == 1 && r[r[id].inputs@[k].element_id].outputs@[0].element_id
            == r[id].inputs@[k].element_id by {
        assert(1 <= id <= 50);
        assert(r.contains_key(id));
        assert(is_standard_recipe(r[id], id as int));
        let e = r[id].inputs@[k].element_id;
        assert(r[id].inputs@ == standard_inputs(id as int));
        assert(1 <= e <= 40);
        assert(r.contains_key(e));
        assert(is_standard_recipe(r[e], e as int));
    }
    assert forall|c: u32| 41 <= c <= 50 implies (#[trigger] r[c]).inputs@.len() == 1 && r[c].inputs@[0].element_id
        == c - 10 && r[c].inputs@[0].amount.0 == 5_000_000 && r[c].outputs@.len() == 0 && r[(c - 10) as u32].outputs@.len()
        == 1 && r[(c - 10) as u32].outputs@[0].element_id == c - 10 by {
        assert(r.contains_key(c) && is_standard_recipe(r[c], c as int));
        let f = (c - 10) as u32;
        assert(r.contains_key(f) && is_standard_recipe(r[f], f as int));
    }
}

/// `new` is `old` after the scenario was generated in it with the recipe map `new.recipes@`:
/// entity counter and network tables as the builder makes them, everything else kept.
pub open spec fn scenario_generated(old: &World, new: &World) -> bool {
    let (bs, eb) = scenario_build(old, new.recipes@);
    &&& new.next_entity == eb.next
    &&& new.net() == (NetState {
        storages: bs.storages,
        converters: bs.converters,
        bindings: bs.bindings,
        edges: eb.edges,
        recipes: new.recipes@,
        ..old.net()
    })
}

proof fn lemma_instances_same_recipes(s: BuildState, r1: Map<u32, Recipe>, r2: Map<u32, Recipe>, k: int)
    requires
        0 <= k <= 200,
        has_standard_recipes(r1),
        has_standard_recipes(r2),
    ensures
        instances_upto(s, r1, k) == instances_upto(s, r2, k),
    decreases k,
{
    if k > 0 {
        lemma_instances_same_recipes(s, r1, r2, k - 1);
        let id = instance_recipe(k - 1) as u32;
        assert(1 <= id <= 50);
        assert(r1.contains_key(id) && r2.contains_key(id));
        assert(r1[id].inputs@ == r2[id].inputs@ && r1[id].outputs@ == r2[id].outputs@ && r1[id].id == r2[id].id);
    }
}

/// Scenario generation is deterministic: generating the scenario in two worlds with the same
/// entity counter and the same network state gives the same entity counter and the same
/// network tables (storages, converters, bindings, edges with their queues, tick, buffers),
/// whichever recipe values with the standard contents each registry holds.
pub proof fn law_scenario_deterministic(w1: &World, w2: &World, f1: &World, f2: &World)
    requires
        w1.next_entity == w2.next_entity,
        w1.net() == w2.net(),
        scenario_generated(w1, f1),
        scenario_generated(w2, f2),
        has_standard_recipes(f1.recipes@),
        has_standard_recipes(f2.recipes@),
    ensures
        f1.next_entity == f2.next_entity,
        f1.net() == (NetState { recipes: f1.recipes@, ..f2.net() }),
{
    let s0 = BuildState {
        next: w1.next_entity as int,
        storages: w1.storages@,
        converters: w1.converters@,
        bindings: w1.net().bindings,
        outputs: Seq::empty(),
        inputs: Seq::empty(),
    };
    lemma_instances_same_recipes(s0, f1.recipes@, f2.recipes@, 200);
    assert(scenario_build(w1, f1.recipes@) == scenario_build(w2, f2.recipes@));
}

/// Generates the standard economic scenario: the 40-resource directory, the fifty standard
/// recipes (other registered recipes are kept), 200 converter instances with their storages,
/// and the flow edges linking every produced resource to the storages that consume it.
pub fn generate_economic_scenario(w: &mut World)
    requires
        old(w).next_entity + 850 <= u32::MAX,
    ensures
        final(w).resource_directory matches Some(d) && is_standard_directory(d),
        has_standard_recipes(final(w).recipes@),
        forall|id: u32|
            !(1 <= id <= 50) ==> (#[trigger] final(w).recipes@.contains_key(id) == old(w).recipes@.contains_key(id)
                && (old(w).recipes@.contains_key(id) ==> final(w).recipes@[id] == old(w).recipes@[id])),
        ({
            let (bs, eb) = scenario_build(old(w), final(w).recipes@);
            &&& final(w).next_entity == eb.next
            &&& final(w).net() == (NetState {
                storages: bs.storages,
                converters: bs.converters,
                bindings: bs.bindings,
                edges: eb.edges,
                recipes: final(w).recipes@,
                ..old(w).net()
            })
        }),
        scenario_generated(old(w), final(w)),
        final(w).astro_nodes@ == old(w).astro_nodes@,
        final(w).surface_nodes@ == old(w).surface_nodes@,
{
    let directory = create_resource_directory();
    w.insert_resource_directory(directory);
    let mut registry = RecipeRegistry::new();
    std::mem::swap(&mut registry, &mut w.recipes);
    let ghost before_reg = registry@;
    register_recipes(&mut registry);
    let ghost w1 = *w;
    let topology = spawn_converters_and_storages(w, &registry);
    proof {
        let s0 = BuildState {
            next: w1.next_entity as int,
            storages: w1.storages@,
            converters: w1.converters@,
            bindings: w1.net().bindings,
            outputs: Seq::empty(),
            inputs: Seq::empty(),
        };
        lemma_instances_inputs(s0, registry@, 200);
        assert(topo_total(Seq::<(u32, Seq<Entity>)>::empty()) == 0);
    }
    spawn_flow_edges(w, &topology);
    w.insert_recipe_registry(registry);
}

} // verus!
