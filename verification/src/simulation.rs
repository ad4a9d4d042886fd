//! Snapshots of a world as plain records, and worlds rebuilt from such records.

use vstd::prelude::*;
use crate::dto::{AstroNodeDto, ConverterDto, FlowEdgeDto, ResourceDto, StorageDto, SurfaceNodeDto};
use crate::network::components::{Converter, Entity, FlowEdge, Storage, TransitPacket};
use crate::network::laws::queue_mass;
use crate::network::types::in_i64;
use crate::network::world::{edge_row_view, find_first, find_row, lemma_find_from, EdgeRow, World};
use crate::spatial::{cell_to_string, h3_cell_valid, is_valid_cell, lower_hex, parse_cell, parse_cell_text, AstroNode, SurfaceNode};
use crate::generator::{generate_economic_scenario, has_standard_recipes, instances_upto, edges_upto, is_standard_directory, BuildState, EdgeBuild};
use crate::network::systems::initialize_simulation_world;
use crate::network::resources::{CurrentTick, Recipe};
use crate::network::world::NetState;
pub use crate::network::world::ResourceDirectory;

verus! {

/// `x` inserted into `s` after every row whose entity index is not larger (a stable insertion).
pub open spec fn insert_by_entity<T>(s: Seq<(Entity, T)>, x: (Entity, T)) -> Seq<(Entity, T)>
    decreases s.len(),
{
    if s.len() == 0 {
        seq![x]
    } else if s.last().0.0 <= x.0.0 {
        s.push(x)
    } else {
        insert_by_entity(s.drop_last(), x).push(s.last())
    }
}

/// Rows stably sorted by entity index (insertion sort).
pub open spec fn sort_by_entity<T>(s: Seq<(Entity, T)>) -> Seq<(Entity, T)>
    decreases s.len(),
{
    if s.len() == 0 {
        Seq::empty()
    } else {
        insert_by_entity(sort_by_entity(s.drop_last()), s.last())
    }
}

/// Rows ordered by entity index.
pub open spec fn entity_sorted<T>(s: Seq<(Entity, T)>) -> bool {
    forall|i: int, j: int| 0 <= i < j < s.len() ==> s[i].0.0 <= s[j].0.0
}

proof fn lemma_insert_position<T>(s: Seq<(Entity, T)>, x: (Entity, T), p: int)
    requires
        0 <= p <= s.len(),
        forall|m: int| p <= m < s.len() ==> s[m].0.0 > x.0.0,
        p > 0 ==> s[p - 1].0.0 <= x.0.0,
    ensures
        insert_by_entity(s, x) == s.insert(p, x),
    decreases s.len(),
{
    if s.len() == 0 {
        assert(s.insert(p, x) =~= seq![x]);
    } else if p == s.len() {
        assert(s.insert(p, x) =~= s.push(x));
    } else {
        lemma_insert_position(s.drop_last(), x, p);
        assert(s.insert(p, x) =~= s.drop_last().insert(p, x).push(s.last()));
    }
}

proof fn lemma_insert_bounded<T>(s: Seq<(Entity, T)>, x: (Entity, T), b: u32)
    requires
        forall|i: int| 0 <= i < s.len() ==> #[trigger] s[i].0.0 <= b,
        x.0.0 <= b,
    ensures
        forall|i: int|
            0 <= i < insert_by_entity(s, x).len() ==> #[trigger] insert_by_entity(s, x)[i].0.0 <= b,
    decreases s.len(),
{
    let r = insert_by_entity(s, x);
    if s.len() == 0 {
        assert(r =~= seq![x]);
    } else if s.last().0.0 <= x.0.0 {
        assert forall|i: int| 0 <= i < r.len() implies #[trigger] r[i].0.0 <= b by {
            if i < s.len() {
                assert(r[i] == s[i]);
            }
        }
    } else {
        let d = s.drop_last();
        assert forall|i: int| 0 <= i < d.len() implies #[trigger] d[i].0.0 <= b by {
            assert(d[i] == s[i]);
        }
        lemma_insert_bounded(d, x, b);
        let q = insert_by_entity(d, x);
        assert forall|i: int| 0 <= i < r.len() implies #[trigger] r[i].0.0 <= b by {
            if i < q.len() {
                assert(r[i] == q[i]);
            } else {
                assert(r[i] == s.last());
                assert(s[s.len() - 1] == s.last());
            }
        }
    }
}

proof fn lemma_insert_sorted<T>(s: Seq<(Entity, T)>, x: (Entity, T))
    requires
        entity_sorted(s),
    ensures
        entity_sorted(insert_by_entity(s, x)),
        insert_by_entity(s, x).len() == s.len() + 1,
    decreases s.len(),
{
    if s.len() > 0 && s.last().0.0 > x.0.0 {
        let d = s.drop_last();
        assert(entity_sorted(d));
        lemma_insert_sorted(d, x);
        assert forall|i: int| 0 <= i < d.len() implies #[trigger] d[i].0.0 <= s.last().0.0 by {
            assert(s[i] == d[i]);
        }
        lemma_insert_bounded(d, x, s.last().0.0);
    }
}

/// The records of a table come out ordered by entity index, holding exactly the table's
/// rows.
pub proof fn law_records_sorted_by_entity<T>(s: Seq<(Entity, T)>)
    ensures
        entity_sorted(sort_by_entity(s)),
        sort_by_entity(s).to_multiset() == s.to_multiset(),
    decreases s.len(),
{
    lemma_sort_same_elements(s);
    if s.len() > 0 {
        law_records_sorted_by_entity(s.drop_last());
        lemma_insert_sorted(sort_by_entity(s.drop_last()), s.last());
    }
}

fn sorted_rows<T: Copy>(rows: &Vec<(Entity, T)>) -> (r: Vec<(Entity, T)>)
    ensures
        r@ == sort_by_entity(rows@),
{
    let mut res: Vec<(Entity, T)> = Vec::new();
    let mut i: usize = 0;
    while i < rows.len()
        invariant
            i <= rows@.len(),
            res@ == sort_by_entity(rows@.take(i as int)),
        decreases rows.len() - i,
    {
        let x = rows[i];
        let mut p: usize = res.len();
        while p > 0 && res[p - 1].0.0 > x.0.0
            invariant
                p <= res@.len(),
                forall|m: int| p <= m < res@.len() ==> res@[m].0.0 > x.0.0,
            decreases p,
        {
            p = p - 1;
        }
        proof {
            lemma_insert_position(res@, x, p as int);
            assert(rows@.take(i + 1).drop_last() =~= rows@.take(i as int));
        }
        res.insert(p, x);
        i = i + 1;
    }
    assert(rows@.take(rows@.len() as int) =~= rows@);
    res
}

/// Record of a storage row.
pub open spec fn storage_record(row: (Entity, Storage)) -> StorageDto {
    StorageDto {
        entity_id: row.0.0,
        resource_id: row.1.element_id,
        amount: row.1.current_amount.0,
        capacity: row.1.capacity.0,
    }
}

/// Summary of an edge row's view: the edge with the total amount in flight on it.
pub open spec fn edge_view_summary(row: (Entity, (FlowEdge, Seq<TransitPacket>))) -> (Entity, (FlowEdge, i64)) {
    (row.0, (row.1.0, queue_mass(row.1.1) as i64))
}

proof fn lemma_insert_map<T, U>(t: Seq<(Entity, T)>, x: (Entity, T), f: spec_fn((Entity, T)) -> (Entity, U))
    requires
        forall|y: (Entity, T)| #[trigger] f(y).0 == y.0,
    ensures
        insert_by_entity(t.map_values(f), f(x)) == insert_by_entity(t, x).map_values(f),
    decreases t.len(),
{
    if t.len() == 0 {
        assert(insert_by_entity(t.map_values(f), f(x)) =~= insert_by_entity(t, x).map_values(f));
    } else {
        assert(t.map_values(f).drop_last() =~= t.drop_last().map_values(f));
        assert(t.map_values(f).last() == f(t.last()));
        assert(f(t.last()).0 == t.last().0 && f(x).0 == x.0);
        if t.last().0.0 <= x.0.0 {
            assert(insert_by_entity(t.map_values(f), f(x)) =~= insert_by_entity(t, x).map_values(f));
        } else {
            lemma_insert_map(t.drop_last(), x, f);
            assert(insert_by_entity(t.map_values(f), f(x)) =~= insert_by_entity(t, x).map_values(f));
        }
    }
}

/// Sorting by entity commutes with any row map that keeps each row's entity.
proof fn lemma_sort_map<T, U>(s: Seq<(Entity, T)>, f: spec_fn((Entity, T)) -> (Entity, U))
    requires
        forall|y: (Entity, T)| #[trigger] f(y).0 == y.0,
    ensures
        sort_by_entity(s.map_values(f)) == sort_by_entity(s).map_values(f),
    decreases s.len(),
{
    if s.len() == 0 {
        assert(sort_by_entity(s.map_values(f)) =~= sort_by_entity(s).map_values(f));
    } else {
        assert(s.map_values(f).drop_last() =~= s.drop_last().map_values(f));
        assert(s.map_values(f).last() == f(s.last()));
        lemma_sort_map(s.drop_last(), f);
        lemma_insert_map(sort_by_entity(s.drop_last()), s.last(), f);
    }
}

/// Records of all storages, ordered by entity.
pub fn storage_dtos(w: &World) -> (r: Vec<StorageDto>)
    ensures
        r@ == sort_by_entity(w.storages@).map_values(|row: (Entity, Storage)| storage_record(row)),
        r@.len() == w.storages@.len(),
        forall|k: int|
            0 <= k < r@.len() ==> (#[trigger] r@[k]).entity_id == sort_by_entity(w.storages@)[k].0.0
                && r@[k].resource_id == sort_by_entity(w.storages@)[k].1.element_id && r@[k].amount
                == sort_by_entity(w.storages@)[k].1.current_amount.0 && r@[k].capacity == sort_by_entity(
                w.storages@,
            )[k].1.capacity.0,
{
    proof {
        lemma_sort_same_elements(w.storages@);
    }
    let rows = sorted_rows(&w.storages);
    let mut out: Vec<StorageDto> = Vec::new();
    let mut i: usize = 0;
    while i < rows.len()
        invariant
            i <= rows@.len(),
            out@ == rows@.take(i as int).map_values(|row: (Entity, Storage)| storage_record(row)),
        decreases rows.len() - i,
    {
        let (e, s) = rows[i];
        out.push(StorageDto { entity_id: e.0, resource_id: s.element_id, amount: s.current_amount.0, capacity: s.capacity.0 });
        assert(rows@.take(i + 1).map_values(|row: (Entity, Storage)| storage_record(row)) =~= rows@.take(
            i as int,
        ).map_values(|row: (Entity, Storage)| storage_record(row)).push(storage_record(rows@[i as int])));
        i = i + 1;
    }
    assert(rows@.take(rows@.len() as int) =~= rows@);
    out
}

/// Record of a converter row.
pub open spec fn converter_record(row: (Entity, Converter)) -> ConverterDto {
    ConverterDto { entity_id: row.0.0, recipe_id: row.1.recipe_id }
}

/// Records of all converters, ordered by entity.
pub fn converter_dtos(w: &World) -> (r: Vec<ConverterDto>)
    ensures
        r@ == sort_by_entity(w.converters@).map_values(|row: (Entity, Converter)| converter_record(row)),
        r@.len() == w.converters@.len(),
        forall|k: int|
            0 <= k < r@.len() ==> (#[trigger] r@[k]).entity_id == sort_by_entity(w.converters@)[k].0.0
                && r@[k].recipe_id == sort_by_entity(w.converters@)[k].1.recipe_id,
{
    proof {
        lemma_sort_same_elements(w.converters@);
    }
    let rows = sorted_rows(&w.converters);
    let mut out: Vec<ConverterDto> = Vec::new();
    let mut i: usize = 0;
    while i < rows.len()
        invariant
            i <= rows@.len(),
            out@ == rows@.take(i as int).map_values(|row: (Entity, Converter)| converter_record(row)),
        decreases rows.len() - i,
    {
        let (e, c) = rows[i];
        out.push(ConverterDto { entity_id: e.0, recipe_id: c.recipe_id });
        assert(rows@.take(i + 1).map_values(|row: (Entity, Converter)| converter_record(row)) =~= rows@.take(
            i as int,
        ).map_values(|row: (Entity, Converter)| converter_record(row)).push(converter_record(rows@[i as int])));
        i = i + 1;
    }
    assert(rows@.take(rows@.len() as int) =~= rows@);
    out
}

/// Record of an astronomical body row.
pub open spec fn astro_record(row: (Entity, AstroNode)) -> AstroNodeDto {
    AstroNodeDto {
        entity_id: row.0.0,
        body_id: row.1.body_id,
        radius_km: row.1.radius_km,
        h3_resolution: row.1.h3_resolution,
    }
}

/// Records of all astronomical bodies, ordered by entity.
pub fn astro_node_dtos(w: &World) -> (r: Vec<AstroNodeDto>)
    ensures
        r@ == sort_by_entity(w.astro_nodes@).map_values(|row: (Entity, AstroNode)| astro_record(row)),
        r@.len() == w.astro_nodes@.len(),
        forall|k: int|
            0 <= k < r@.len() ==> (#[trigger] r@[k]).entity_id == sort_by_entity(w.astro_nodes@)[k].0.0
                && r@[k].body_id == sort_by_entity(w.astro_nodes@)[k].1.body_id && r@[k].radius_km
                == sort_by_entity(w.astro_nodes@)[k].1.radius_km && r@[k].h3_resolution == sort_by_entity(
                w.astro_nodes@,
            )[k].1.h3_resolution,
{
    proof {
        lemma_sort_same_elements(w.astro_nodes@);
    }
    let rows = sorted_rows(&w.astro_nodes);
    let mut out: Vec<AstroNodeDto> = Vec::new();
    let mut i: usize = 0;
    while i < rows.len()
        invariant
            i <= rows@.len(),
            out@ == rows@.take(i as int).map_values(|row: (Entity, AstroNode)| astro_record(row)),
        decreases rows.len() - i,
    {
        let (e, a) = rows[i];
        out.push(AstroNodeDto { entity_id: e.0, body_id: a.body_id, radius_km: a.radius_km, h3_resolution: a.h3_resolution });
        assert(rows@.take(i + 1).map_values(|row: (Entity, AstroNode)| astro_record(row)) =~= rows@.take(
            i as int,
        ).map_values(|row: (Entity, AstroNode)| astro_record(row)).push(astro_record(rows@[i as int])));
        i = i + 1;
    }
    assert(rows@.take(rows@.len() as int) =~= rows@);
    out
}

/// Running sums of the packet amounts of a queue all fit in `i64`.
pub open spec fn queue_sum_fits(ps: Seq<TransitPacket>) -> bool {
    forall|k: int| 0 <= k <= ps.len() ==> #[trigger] in_i64(queue_mass(ps.take(k)))
}

/// Row of an edge with the total amount in flight on it.
pub open spec fn edge_summary(r: EdgeRow) -> (Entity, (FlowEdge, i64)) {
    (r.entity, (r.edge, queue_mass(r.queue@) as i64))
}

/// Record of an edge summary row.
pub open spec fn edge_record(row: (Entity, (FlowEdge, i64))) -> FlowEdgeDto {
    FlowEdgeDto {
        edge_id: row.0.0,
        source_id: row.1.0.source.0,
        destination_id: row.1.0.destination.0,
        in_transit: row.1.1,
    }
}

fn queue_total(ps: &Vec<TransitPacket>) -> (t: i64)
    requires
        queue_sum_fits(ps@),
    ensures
        t == queue_mass(ps@),
{
    let mut t: i64 = 0;
    let mut j: usize = 0;
    while j < ps.len()
        invariant
            queue_sum_fits(ps@),
            j <= ps@.len(),
            t == queue_mass(ps@.take(j as int)),
        decreases ps.len() - j,
    {
        assert(ps@.take(j + 1).drop_last() =~= ps@.take(j as int));
        assert(in_i64(queue_mass(ps@.take(j + 1))));
        t = t + ps[j].amount.0;
        j = j + 1;
    }
    assert(ps@.take(ps@.len() as int) =~= ps@);
    t
}

/// Records of all flow edges with their in-transit totals, ordered by entity.
pub fn flow_edge_dtos(w: &World) -> (r: Vec<FlowEdgeDto>)
    requires
        forall|i: int| 0 <= i < w.edges@.len() ==> queue_sum_fits(#[trigger] w.edges@[i].queue@),
    ensures
        r@ == sort_by_entity(w.edges@.map_values(|x: EdgeRow| edge_summary(x))).map_values(
            |row: (Entity, (FlowEdge, i64))| edge_record(row),
        ),
        r@.len() == w.edges@.len(),
        forall|k: int|
            0 <= k < r@.len() ==> (#[trigger] r@[k]).edge_id == sort_by_entity(w.net().edges)[k].0.0
                && r@[k].source_id == sort_by_entity(w.net().edges)[k].1.0.source.0 && r@[k].destination_id
                == sort_by_entity(w.net().edges)[k].1.0.destination.0 && r@[k].in_transit == queue_mass(
                sort_by_entity(w.net().edges)[k].1.1,
            ) as i64,
{
    proof {
        let g = |row: (Entity, (FlowEdge, Seq<TransitPacket>))| edge_view_summary(row);
        assert(w.edges@.map_values(|x: EdgeRow| edge_summary(x)) =~= w.net().edges.map_values(g));
        lemma_sort_map(w.net().edges, g);
        lemma_sort_same_elements(w.net().edges);
    }
    let mut summary: Vec<(Entity, (FlowEdge, i64))> = Vec::new();
    let mut i: usize = 0;
    while i < w.edges.len()
        invariant
            forall|i: int| 0 <= i < w.edges@.len() ==> queue_sum_fits(#[trigger] w.edges@[i].queue@),
            i <= w.edges@.len(),
            summary@ == w.edges@.take(i as int).map_values(|x: EdgeRow| edge_summary(x)),
        decreases w.edges.len() - i,
    {
        assert(queue_sum_fits(w.edges@[i as int].queue@));
        let total = queue_total(&w.edges[i].queue.packets);
        summary.push((w.edges[i].entity, (w.edges[i].edge, total)));
        assert(w.edges@.take(i + 1).map_values(|x: EdgeRow| edge_summary(x)) =~= w.edges@.take(
            i as int,
        ).map_values(|x: EdgeRow| edge_summary(x)).push(edge_summary(w.edges@[i as int])));
        i = i + 1;
    }
    assert(w.edges@.take(w.edges@.len() as int) =~= w.edges@);
    let rows = sorted_rows(&summary);
    let mut out: Vec<FlowEdgeDto> = Vec::new();
    let mut i: usize = 0;
    while i < rows.len()
        invariant
            i <= rows@.len(),
            out@ == rows@.take(i as int).map_values(|row: (Entity, (FlowEdge, i64))| edge_record(row)),
        decreases rows.len() - i,
    {
        let (e, (edge, total)) = rows[i];
        out.push(
            FlowEdgeDto {
                edge_id: e.0,
                source_id: edge.source.0,
                destination_id: edge.destination.0,
                in_transit: total,
            },
        );
        assert(rows@.take(i + 1).map_values(|row: (Entity, (FlowEdge, i64))| edge_record(row)) =~= rows@.take(
            i as int,
        ).map_values(|row: (Entity, (FlowEdge, i64))| edge_record(row)).push(edge_record(rows@[i as int])));
        i = i + 1;
    }
    assert(rows@.take(rows@.len() as int) =~= rows@);
    out
}

/// Body id shown for a parent entity: the astronomical body's id when the parent is one,
/// else the parent entity's index.
pub open spec fn parent_body_id(astro: Seq<(Entity, AstroNode)>, parent: Entity) -> u32 {
    match find_first(astro, parent) {
        Some(i) => astro[i].1.body_id,
        None => parent.0,
    }
}

/// Every surface node sits on a valid H3 cell.
pub open spec fn surface_cells_valid(rows: Seq<(Entity, SurfaceNode)>) -> bool {
    forall|i: int| 0 <= i < rows.len() ==> h3_cell_valid(#[trigger] rows[i].1.cell)
}

/// `v` holds the records of all surface nodes of `w`, ordered by entity: entity index,
/// parent body id and cell text.
pub open spec fn surface_records(w: &World, v: Seq<SurfaceNodeDto>) -> bool {
    let rows = sort_by_entity(w.surface_nodes@);
    &&& v.len() == rows.len()
    &&& forall|i: int|
        0 <= i < rows.len() ==> (#[trigger] v[i]).entity_id == rows[i].0.0 && v[i].parent_body_id
            == parent_body_id(w.astro_nodes@, rows[i].1.parent_body) && v[i].h3_cell_index@ == lower_hex(
            rows[i].1.cell as nat,
        )
}

/// Records of all surface nodes, ordered by entity: parent body id and cell text.
pub fn surface_node_dtos(w: &World) -> (r: Vec<SurfaceNodeDto>)
    requires
        surface_cells_valid(w.surface_nodes@),
    ensures
        surface_records(w, r@),
{
    let rows = sorted_rows(&w.surface_nodes);
    proof {
        lemma_sort_same_elements(w.surface_nodes@);
    }
    let mut out: Vec<SurfaceNodeDto> = Vec::new();
    let mut i: usize = 0;
    while i < rows.len()
        invariant
            rows@ == sort_by_entity(w.surface_nodes@),
            surface_cells_valid(rows@),
            i <= rows@.len(),
            out@.len() == i,
            forall|k: int|
                0 <= k < i ==> (#[trigger] out@[k]).entity_id == rows@[k].0.0 && out@[k].parent_body_id
                    == parent_body_id(w.astro_nodes@, rows@[k].1.parent_body) && out@[k].h3_cell_index@ == lower_hex(
                    rows@[k].1.cell as nat,
                ),
        decreases rows.len() - i,
    {
        let (e, node) = rows[i];
        let parent = match find_row(&w.astro_nodes, node.parent_body) {
            Some(ai) => w.astro_nodes[ai].1.body_id,
            None => node.parent_body.0,
        };
        assert(h3_cell_valid(rows@[i as int].1.cell));
        let text = cell_to_string(node.cell);
        out.push(SurfaceNodeDto { entity_id: e.0, parent_body_id: parent, h3_cell_index: text });
        i = i + 1;
    }
    out
}

/// Records of all surface nodes when every cell is valid; `None` otherwise.
pub fn try_surface_node_dtos(w: &World) -> (r: Option<Vec<SurfaceNodeDto>>)
    ensures
        r is Some <==> surface_cells_valid(w.surface_nodes@),
        r matches Some(v) ==> surface_records(w, v@),
{
    let mut i: usize = 0;
    while i < w.surface_nodes.len()
        invariant
            i <= w.surface_nodes@.len(),
            forall|k: int| 0 <= k < i ==> h3_cell_valid(#[trigger] w.surface_nodes@[k].1.cell),
        decreases w.surface_nodes.len() - i,
    {
        if !is_valid_cell(w.surface_nodes[i].1.cell) {
            return None;
        }
        i = i + 1;
    }
    Some(surface_node_dtos(w))
}

proof fn lemma_insert_same_elements<T>(s: Seq<(Entity, T)>, x: (Entity, T))
    ensures
        insert_by_entity(s, x).len() == s.len() + 1,
        insert_by_entity(s, x).to_multiset() == s.to_multiset().insert(x),
    decreases s.len(),
{
    broadcast use vstd::seq_lib::group_seq_properties;
    if s.len() == 0 {
        assert(seq![x] =~= Seq::<(Entity, T)>::empty().push(x));
    } else if s.last().0.0 <= x.0.0 {
    } else {
        lemma_insert_same_elements(s.drop_last(), x);
        assert(s =~= s.drop_last().push(s.last()));
    }
}

/// Sorting keeps exactly the same rows.
pub proof fn lemma_sort_same_elements<T>(s: Seq<(Entity, T)>)
    ensures
        sort_by_entity(s).len() == s.len(),
        sort_by_entity(s).to_multiset() == s.to_multiset(),
        forall|i: int| 0 <= i < sort_by_entity(s).len() ==> s.contains(#[trigger] sort_by_entity(s)[i]),
    decreases s.len(),
{
    broadcast use vstd::seq_lib::group_seq_properties;
    if s.len() > 0 {
        lemma_sort_same_elements(s.drop_last());
        lemma_insert_same_elements(sort_by_entity(s.drop_last()), s.last());
        assert(s =~= s.drop_last().push(s.last()));
        assert forall|i: int| 0 <= i < sort_by_entity(s).len() implies s.contains(#[trigger] sort_by_entity(s)[i]) by {
            let x = sort_by_entity(s)[i];
            assert(sort_by_entity(s).to_multiset().count(x) > 0);
            assert(s.to_multiset().count(x) > 0);
        }
    }
}

/// Whether every edge's running in-transit sum fits in `i64` (what `flow_edge_dtos` needs).
pub fn in_transit_sums_fit(w: &World) -> (r: bool)
    ensures
        r == forall|i: int| 0 <= i < w.edges@.len() ==> queue_sum_fits(#[trigger] w.edges@[i].queue@),
{
    let mut i: usize = 0;
    while i < w.edges.len()
        invariant
            i <= w.edges@.len(),
            forall|k: int| 0 <= k < i ==> queue_sum_fits(#[trigger] w.edges@[k].queue@),
        decreases w.edges.len() - i,
    {
        let ps = &w.edges[i].queue.packets;
        let mut t: i64 = 0;
        let mut j: usize = 0;
        while j < ps.len()
            invariant
                i < w.edges@.len(),
                ps@ == w.edges@[i as int].queue@,
                j <= ps@.len(),
                t == queue_mass(ps@.take(j as int)),
                forall|k: int| 0 <= k <= j ==> #[trigger] in_i64(queue_mass(ps@.take(k))),
            decreases ps.len() - j,
        {
            assert(ps@.take(j + 1).drop_last() =~= ps@.take(j as int));
            match t.checked_add(ps[j].amount.0) {
                Some(v) => {
                    t = v;
                },
                None => {
                    assert(!queue_sum_fits(w.edges@[i as int].queue@)) by {
                        assert(!in_i64(queue_mass(ps@.take(j + 1))));
                    }
                    return false;
                },
            }
            j = j + 1;
        }
        assert(ps@.take(ps@.len() as int) =~= ps@);
        assert(queue_sum_fits(w.edges@[i as int].queue@));
        i = i + 1;
    }
    true
}

/// The resource definitions of the world's directory (empty when it has none).
pub fn resource_dtos(w: &World) -> (r: Vec<ResourceDto>)
    ensures
        match w.resource_directory {
            Some(d) => r@.len() == d.resources@.len() && forall|i: int|
                0 <= i < r@.len() ==> (#[trigger] r@[i]).id == d.resources@[i].id && r@[i].name@
                    == d.resources@[i].name@,
            None => r@.len() == 0,
        },
{
    let mut out: Vec<ResourceDto> = Vec::new();
    match &w.resource_directory {
        Some(d) => {
            let mut i: usize = 0;
            while i < d.resources.len()
                invariant
                    i <= d.resources@.len(),
                    out@.len() == i,
                    forall|k: int|
                        0 <= k < i ==> (#[trigger] out@[k]).id == d.resources@[k].id && out@[k].name@
                            == d.resources@[k].name@,
                decreases d.resources.len() - i,
            {
                let name = d.resources[i].name.clone();
                out.push(ResourceDto { id: d.resources[i].id, name });
                i = i + 1;
            }
        },
        None => {},
    }
    out
}

/// Index of the first orbital state at or after `j` whose id is `body_id`.
pub open spec fn find_orbital(ids: Seq<u64>, body_id: u32, j: int) -> Option<int>
    decreases ids.len() - j,
{
    if j < 0 || j >= ids.len() {
        None
    } else if ids[j] == body_id as u64 {
        Some(j)
    } else {
        find_orbital(ids, body_id, j + 1)
    }
}

/// Orbital states attached to the first `k` astronomical bodies: body `i` is entity
/// `i` and carries the first orbital state whose id is its body id.
pub open spec fn astro_attachments(ids: Seq<u64>, astros: Seq<AstroNodeDto>, k: int) -> Seq<(usize, Entity)>
    decreases k,
{
    if k <= 0 {
        Seq::empty()
    } else {
        let prev = astro_attachments(ids, astros, k - 1);
        match find_orbital(ids, astros[k - 1].body_id, 0) {
            Some(o) => prev.push((o as usize, Entity((k - 1) as u32))),
            None => prev,
        }
    }
}

/// Some astronomical body carries orbital id `id`.
pub open spec fn orbital_has_body(astros: Seq<AstroNodeDto>, id: u64) -> bool {
    exists|i: int| 0 <= i < astros.len() && #[trigger] astros[i].body_id as u64 == id
}

/// Entities for the first `k` orbital states without a body, numbered from `next`.
pub open spec fn loose_orbitals(ids: Seq<u64>, astros: Seq<AstroNodeDto>, next: int, k: int) -> (int, Seq<(usize, Entity)>)
    decreases k,
{
    if k <= 0 {
        (next, Seq::empty())
    } else {
        let prev = loose_orbitals(ids, astros, next, k - 1);
        if orbital_has_body(astros, ids[k - 1]) {
            prev
        } else {
            (prev.0 + 1, prev.1.push(((k - 1) as usize, Entity(prev.0 as u32))))
        }
    }
}

/// Entity of the last astronomical body among the first `k` with id `body_id`.
pub open spec fn last_body_entity(astros: Seq<AstroNodeDto>, body_id: u32, k: int) -> Option<Entity>
    decreases k,
{
    if k <= 0 {
        None
    } else if astros[k - 1].body_id == body_id {
        Some(Entity((k - 1) as u32))
    } else {
        last_body_entity(astros, body_id, k - 1)
    }
}

/// Surface nodes spawned for the first `k` records whose cell text parses, numbered from
/// `next`; the parent is the body with the record's body id (placeholder when none).
pub open spec fn surface_spawns(astros: Seq<AstroNodeDto>, sds: Seq<SurfaceNodeDto>, next: int, k: int) -> (int, Seq<(Entity, SurfaceNode)>)
    decreases k,
{
    if k <= 0 {
        (next, Seq::empty())
    } else {
        let prev = surface_spawns(astros, sds, next, k - 1);
        match parse_cell_text(sds[k - 1].h3_cell_index@) {
            Some(cell) => {
                let parent = match last_body_entity(astros, sds[k - 1].parent_body_id, astros.len() as int) {
                    Some(e) => e,
                    None => Entity(u32::MAX),
                };
                (prev.0 + 1, prev.1.push((Entity(prev.0 as u32), SurfaceNode { parent_body: parent, cell })))
            },
            None => prev,
        }
    }
}

/// The body table rebuilt from records: body `i` is entity `i`.
pub open spec fn astro_table(astros: Seq<AstroNodeDto>) -> Seq<(Entity, AstroNode)> {
    Seq::new(
        astros.len(),
        |i: int|
            (
                Entity(i as u32),
                AstroNode {
                    body_id: astros[i].body_id,
                    radius_km: astros[i].radius_km,
                    h3_resolution: astros[i].h3_resolution,
                },
            ),
    )
}

/// Entities spawned before the scenario, and the orbital attachments: with no bodies, orbital
/// `k` is entity `k`; otherwise bodies come first, then the orbital states without a body.
pub open spec fn rebuild_layout(ids: Seq<u64>, astros: Seq<AstroNodeDto>) -> (int, Seq<(usize, Entity)>) {
    if astros.len() == 0 {
        (ids.len() as int, Seq::new(ids.len(), |k: int| (k as usize, Entity(k as u32))))
    } else {
        let l = loose_orbitals(ids, astros, astros.len() as int, ids.len() as int);
        (l.0, astro_attachments(ids, astros, astros.len() as int) + l.1)
    }
}

/// The scenario built into an otherwise empty world whose next entity is `next`.
pub open spec fn fresh_scenario(next: int, recipes: Map<u32, Recipe>) -> (BuildState, EdgeBuild) {
    let bs = instances_upto(
        BuildState {
            next,
            storages: Seq::empty(),
            converters: Seq::empty(),
            bindings: Seq::empty(),
            outputs: Seq::empty(),
            inputs: Seq::empty(),
        },
        recipes,
        200,
    );
    let eb = edges_upto(EdgeBuild { next: bs.next, edges: Seq::empty(), count: 0 }, bs.outputs, bs.inputs, bs.inputs.len() as int);
    (bs, eb)
}

proof fn lemma_loose_bound(ids: Seq<u64>, astros: Seq<AstroNodeDto>, next: int, k: int)
    requires
        0 <= k <= ids.len(),
    ensures
        next <= loose_orbitals(ids, astros, next, k).0 <= next + k,
    decreases k,
{
    if k > 0 {
        lemma_loose_bound(ids, astros, next, k - 1);
    }
}

proof fn lemma_surface_bound(astros: Seq<AstroNodeDto>, sds: Seq<SurfaceNodeDto>, next: int, k: int)
    requires
        0 <= k <= sds.len(),
    ensures
        next <= surface_spawns(astros, sds, next, k).0 <= next + k,
    decreases k,
{
    if k > 0 {
        lemma_surface_bound(astros, sds, next, k - 1);
    }
}

/// Rebuilds a world from records: the tick, the astronomical bodies (entities `0..n`),
/// an entity for every orbital state without a body, the surface nodes whose cell text
/// parses, then the standard economic scenario. Returns the world and, for each orbital
/// state (by index), the entity it is attached to.
pub fn build_world_from_snapshot(
    tick: u64,
    astro_nodes: &Vec<AstroNodeDto>,
    orbital_ids: &Vec<u64>,
    surface_nodes: &Vec<SurfaceNodeDto>,
) -> (r: (World, Vec<(usize, Entity)>))
    requires
        astro_nodes@.len() + orbital_ids@.len() + surface_nodes@.len() + 850 <= u32::MAX,
    ensures
        ({
            let (w, attach) = r;
            let layout = rebuild_layout(orbital_ids@, astro_nodes@);
            let surf = surface_spawns(astro_nodes@, surface_nodes@, layout.0, surface_nodes@.len() as int);
            let (bs, eb) = fresh_scenario(surf.0, w.recipes@);
            &&& attach@ == layout.1
            &&& w.astro_nodes@ == astro_table(astro_nodes@)
            &&& w.surface_nodes@ == surf.1
            &&& w.resource_directory matches Some(d) && is_standard_directory(d)
            &&& has_standard_recipes(w.recipes@)
            &&& forall|id: u32| !(1 <= id <= 50) ==> !(#[trigger] w.recipes@.contains_key(id))
            &&& w.next_entity == eb.next
            &&& w.net() == (NetState {
                tick,
                storages: bs.storages,
                edges: eb.edges,
                converters: bs.converters,
                bindings: bs.bindings,
                relocating: Seq::empty(),
                recipes: w.recipes@,
                demands: Seq::empty(),
                allocations: Seq::empty(),
                errors: Seq::empty(),
            })
        }),
{
    let mut w = initialize_simulation_world();
    w.current_tick = CurrentTick(tick);
    assert(w.net() =~= old_net_empty(tick));
    let ghost ids = orbital_ids@;
    let ghost astros = astro_nodes@;
    let mut attach: Vec<(usize, Entity)> = Vec::new();
    if astro_nodes.len() == 0 {
        let mut k: usize = 0;
        while k < orbital_ids.len()
            invariant
                ids == orbital_ids@,
                k <= ids.len(),
                ids.len() + 850 <= u32::MAX,
                w.next_entity == k,
                attach@ == Seq::new(k as nat, |m: int| (m as usize, Entity(m as u32))),
                w.net() == (NetState { tick, ..old_net_empty(tick) }),
                w.astro_nodes@.len() == 0,
                w.surface_nodes@.len() == 0,
                w.resource_directory.is_none(),
            decreases orbital_ids.len() - k,
        {
            let e = w.spawn_empty();
            attach.push((k, e));
            assert(attach@ =~= Seq::new((k + 1) as nat, |m: int| (m as usize, Entity(m as u32))));
            k = k + 1;
        }
    } else {
        let mut i: usize = 0;
        while i < astro_nodes.len()
            invariant
                ids == orbital_ids@,
                astros == astro_nodes@,
                i <= astros.len(),
                astros.len() + ids.len() + 850 <= u32::MAX,
                w.next_entity == i,
                attach@ == astro_attachments(ids, astros, i as int),
                w.astro_nodes@ == astro_table(astros).take(i as int),
                w.net() == (NetState { tick, ..old_net_empty(tick) }),
                w.surface_nodes@.len() == 0,
                w.resource_directory.is_none(),
            decreases astro_nodes.len() - i,
        {
            let a = astro_nodes[i];
            let mut o: usize = 0;
            let mut found = false;
            while o < orbital_ids.len() && !found
                invariant
                    ids == orbital_ids@,
                    o <= ids.len(),
                    found ==> o < ids.len() && find_orbital(ids, a.body_id, 0) == Some(o as int),
                    !found ==> find_orbital(ids, a.body_id, 0) == find_orbital(ids, a.body_id, o as int),
                decreases ids.len() - o + if found { 0int } else { 1int },
            {
                if orbital_ids[o] == a.body_id as u64 {
                    found = true;
                } else {
                    o = o + 1;
                }
            }
            let e = w.spawn_astro_node(AstroNode::new(a.body_id, a.radius_km, a.h3_resolution));
            if found {
                attach.push((o, e));
            }
            assert(w.astro_nodes@ =~= astro_table(astros).take(i + 1));
            i = i + 1;
        }
        assert(astro_table(astros).take(astros.len() as int) =~= astro_table(astros));
        let ghost n = astros.len() as int;
        let ghost base = attach@;
        let mut k: usize = 0;
        proof {
            lemma_loose_bound(ids, astros, n, ids.len() as int);
        }
        while k < orbital_ids.len()
            invariant
                ids == orbital_ids@,
                astros == astro_nodes@,
                n == astros.len(),
                n + ids.len() + 850 <= u32::MAX,
                k <= ids.len(),
                w.next_entity == loose_orbitals(ids, astros, n, k as int).0,
                attach@ == base + loose_orbitals(ids, astros, n, k as int).1,
                w.astro_nodes@ == astro_table(astros),
                w.net() == (NetState { tick, ..old_net_empty(tick) }),
                w.surface_nodes@.len() == 0,
                w.resource_directory.is_none(),
            decreases orbital_ids.len() - k,
        {
            proof {
                lemma_loose_bound(ids, astros, n, k as int);
            }
            let id = orbital_ids[k];
            let mut j: usize = 0;
            let mut has_body = false;
            while j < astro_nodes.len() && !has_body
                invariant
                    astros == astro_nodes@,
                    j <= astros.len(),
                    has_body ==> orbital_has_body(astros, id),
                    !has_body ==> forall|m: int| 0 <= m < j ==> #[trigger] astros[m].body_id as u64 != id,
                decreases astros.len() - j + if has_body { 0int } else { 1int },
            {
                if astro_nodes[j].body_id as u64 == id {
                    has_body = true;
                } else {
                    j = j + 1;
                }
            }
            if !has_body {
                let e = w.spawn_empty();
                attach.push((k, e));
                assert(attach@ =~= base + loose_orbitals(ids, astros, n, k + 1).1);
            }
            k = k + 1;
        }
    }
    let ghost layout = rebuild_layout(ids, astros);
    assert(attach@ =~= layout.1);
    proof {
        if astros.len() > 0 {
            lemma_loose_bound(ids, astros, astros.len() as int, ids.len() as int);
        }
    }
    let ghost sds = surface_nodes@;
    let mut k: usize = 0;
    proof {
        lemma_surface_bound(astros, sds, layout.0, sds.len() as int);
    }
    while k < surface_nodes.len()
        invariant
            sds == surface_nodes@,
            astros == astro_nodes@,
            layout == rebuild_layout(ids, astros),
            layout.0 + sds.len() + 850 <= u32::MAX,
            k <= sds.len(),
            w.next_entity == surface_spawns(astros, sds, layout.0, k as int).0,
            w.surface_nodes@ == surface_spawns(astros, sds, layout.0, k as int).1,
            w.astro_nodes@ == astro_table(astros),
            w.net() == (NetState { tick, ..old_net_empty(tick) }),
            w.resource_directory.is_none(),
        decreases surface_nodes.len() - k,
    {
        proof {
            lemma_surface_bound(astros, sds, layout.0, k as int);
        }
        match parse_cell(surface_nodes[k].h3_cell_index.as_str()) {
            Some(cell) => {
                let body = surface_nodes[k].parent_body_id;
                let mut i: usize = astro_nodes.len();
                let mut parent = Entity::placeholder();
                let mut found = false;
                while i > 0 && !found
                    invariant
                        astros == astro_nodes@,
                        i <= astros.len(),
                        found ==> last_body_entity(astros, body, astros.len() as int) == Some(parent),
                        !found ==> last_body_entity(astros, body, astros.len() as int) == last_body_entity(astros, body, i as int),
                        !found ==> parent == Entity(u32::MAX),
                    decreases i + if found { 0int } else { 1int },
                {
                    if astro_nodes[i - 1].body_id == body {
                        parent = Entity((i - 1) as u32);
                        found = true;
                    } else {
                        i = i - 1;
                    }
                }
                w.spawn_surface_node(SurfaceNode { parent_body: parent, cell });
            },
            None => {},
        }
        k = k + 1;
    }
    generate_economic_scenario(&mut w);
    (w, attach)
}

/// The pipeline state of a freshly initialised world at `tick`.
pub open spec fn old_net_empty(tick: u64) -> NetState {
    NetState {
        tick,
        storages: Seq::empty(),
        edges: Seq::empty(),
        converters: Seq::empty(),
        bindings: Seq::empty(),
        relocating: Seq::empty(),
        recipes: Map::empty(),
        demands: Seq::empty(),
        allocations: Seq::empty(),
        errors: Seq::empty(),
    }
}

} // verus!
