//! The tick pipeline: advance the clock, poll demand, resolve contention, move packets,
//! retire relocations, run converters; then report the first logged error.

use vstd::prelude::*;
use crate::error::{DomainError, DomainErrorView};
use super::components::{Entity, FlowQueue, Relocating, Storage, TransitPacket};
use super::conversion::{converters_spec, execute_converters_system};
use super::demand::{contention_spec, poll_demand_system, poll_spec, resolve_contention_system, try_contention, try_poll};
use super::resources::{error_views, CurrentTick};
use super::transit::{
    deliver_spec, dispatch_spec, lemma_dispatch_errors_irrelevant, transit_flow_system, transit_spec, try_transit,
};
use super::world::{edge_row_view, EdgeRow, NetState, World};

verus! {

/// Advances the tick by one; `None` at the end of the `u64` range.
pub open spec fn advance_spec(s: NetState) -> Option<NetState> {
    if s.tick < u64::MAX {
        Some(NetState { tick: (s.tick + 1) as u64, ..s })
    } else {
        None
    }
}

/// Relocation tags still in progress at `tick` (arrival strictly later), in order.
pub open spec fn pending_relocations(rows: Seq<(Entity, Relocating)>, tick: u64) -> Seq<(Entity, Relocating)>
    decreases rows.len(),
{
    if rows.len() == 0 {
        Seq::empty()
    } else {
        pending_relocations(rows.drop_last(), tick) + if rows.last().1.arrival_tick > tick {
            seq![rows.last()]
        } else {
            Seq::empty()
        }
    }
}

/// A relocation tag is retired exactly when its arrival tick has come: every tag kept is
/// still under way, every tag under way is kept, and nothing else appears.
pub proof fn law_relocations_retire_on_arrival(rows: Seq<(Entity, Relocating)>, tick: u64)
    ensures
        forall|i: int|
            0 <= i < pending_relocations(rows, tick).len() ==> #[trigger] pending_relocations(rows, tick)[i].1.arrival_tick
                > tick && rows.contains(pending_relocations(rows, tick)[i]),
        forall|i: int|
            0 <= i < rows.len() && #[trigger] rows[i].1.arrival_tick > tick ==> pending_relocations(rows, tick).contains(
                rows[i],
            ),
    decreases rows.len(),
{
    if rows.len() > 0 {
        let d = rows.drop_last();
        law_relocations_retire_on_arrival(d, tick);
        let p = pending_relocations(d, tick);
        let q = pending_relocations(rows, tick);
        assert forall|i: int| 0 <= i < q.len() implies #[trigger] q[i].1.arrival_tick > tick && rows.contains(q[i]) by {
            if i < p.len() {
                assert(q[i] == p[i]);
                assert(p[i].1.arrival_tick > tick && d.contains(p[i]));
                let j = choose|j: int| 0 <= j < d.len() && d[j] == p[i];
                assert(rows[j] == d[j]);
            } else {
                assert(q[i] == rows.last());
                assert(rows[rows.len() - 1] == rows.last());
            }
        }
        assert forall|i: int| 0 <= i < rows.len() && #[trigger] rows[i].1.arrival_tick > tick implies q.contains(rows[i]) by {
            if i < d.len() {
                assert(rows[i] == d[i]);
                assert(d[i].1.arrival_tick > tick);
                let j = choose|j: int| 0 <= j < p.len() && p[j] == d[i];
                assert(q[j] == p[j]);
            } else {
                assert(rows[i] == rows.last());
                assert(q[q.len() - 1] == rows.last());
            }
        }
    }
}

/// Retires the relocation tags whose arrival tick has come.
pub open spec fn relocating_spec(s: NetState) -> NetState {
    NetState { relocating: pending_relocations(s.relocating, s.tick), ..s }
}

/// The whole tick pipeline; `None` when one of its running totals or tick counters would
/// leave its machine range.
pub open spec fn pipeline_spec(s: NetState) -> Option<NetState> {
    match advance_spec(s) {
        None => None,
        Some(s1) => match poll_spec(s1) {
            None => None,
            Some(s2) => match contention_spec(s2) {
                None => None,
                Some(s3) => match transit_spec(s3) {
                    None => None,
                    Some(s4) => Some(converters_spec(relocating_spec(s4))),
                },
            },
        },
    }
}

/// Advances the simulation tick by one.
pub fn advance_tick_system(w: &mut World)
    requires
        advance_spec(old(w).net()) is Some,
    ensures
        final(w).net() == advance_spec(old(w).net()).unwrap(),
        final(w).same_outside_net(old(w)),
{
    w.current_tick = CurrentTick(w.current_tick.0 + 1);
}

/// Removes the relocation tags of entities whose arrival tick has come.
pub fn relocating_lifecycle_system(w: &mut World)
    ensures
        final(w).net() == relocating_spec(old(w).net()),
        final(w).same_outside_net(old(w)),
{
    let tick = w.current_tick.0;
    let ghost rows = w.relocating@;
    let mut kept: Vec<(Entity, Relocating)> = Vec::new();
    let mut i: usize = 0;
    while i < w.relocating.len()
        invariant
            rows == w.relocating@,
            i <= rows.len(),
            kept@ == pending_relocations(rows.take(i as int), tick),
        decreases w.relocating.len() - i,
    {
        assert(rows.take(i + 1).drop_last() =~= rows.take(i as int));
        let r = w.relocating[i];
        if r.1.arrival_tick > tick {
            kept.push(r);
        }
        assert(kept@ =~= pending_relocations(rows.take(i + 1), tick));
        i = i + 1;
    }
    assert(rows.take(rows.len() as int) =~= rows);
    w.relocating = kept;
    assert(w.net() =~= relocating_spec(old(w).net()));
}

/// Builds an empty world at tick zero with empty recipe registry and buffers.
pub fn initialize_simulation_world() -> (w: World)
    ensures
        w.net().tick == 0,
        w.net().storages.len() == 0,
        w.net().edges.len() == 0,
        w.net().converters.len() == 0,
        w.net().bindings.len() == 0,
        w.net().relocating.len() == 0,
        w.net().recipes == Map::<u32, super::resources::Recipe>::empty(),
        w.net().demands.len() == 0,
        w.net().allocations.len() == 0,
        w.net().errors.len() == 0,
        w.next_entity == 0,
        w.astro_nodes@.len() == 0,
        w.surface_nodes@.len() == 0,
        w.resource_directory.is_none(),
        w.wf(),
{
    World::new()
}

/// Runs one tick of the pipeline, then reports the earliest logged error, if any, clearing
/// the log.
pub fn tick_simulation_world(w: &mut World) -> (r: Result<(), DomainError>)
    requires
        pipeline_spec(old(w).net()) is Some,
    ensures
        ({
            let p = pipeline_spec(old(w).net()).unwrap();
            match r {
                Ok(_) => p.errors.len() == 0 && final(w).net() == p,
                Err(e) => p.errors.len() > 0 && e@ == p.errors[0] && final(w).net() == (NetState {
                    errors: Seq::empty(),
                    ..p
                }),
            }
        }),
        final(w).same_outside_net(old(w)),
        old(w).wf() ==> final(w).wf(),
{
    proof {
        if old(w).wf() {
            super::tables::lemma_pipeline_tables(old(w).net(), old(w).next_entity);
        }
    }
    advance_tick_system(w);
    poll_demand_system(w);
    resolve_contention_system(w);
    transit_flow_system(w);
    relocating_lifecycle_system(w);
    execute_converters_system(w);
    match w.error_log.take_first() {
        Some(e) => {
            assert(error_views(w.error_log.errors@) =~= Seq::<DomainErrorView>::empty());
            Err(e)
        },
        None => {
            assert(error_views(w.error_log.errors@) =~= Seq::<DomainErrorView>::empty());
            Ok(())
        },
    }
}

/// Whether the tick pipeline runs within its machine ranges depends only on the tick, the
/// storages and the flow edges (with their queues).
proof fn lemma_pipeline_same_inputs(s: NetState, t: NetState)
    requires
        s.tick == t.tick,
        s.storages == t.storages,
        s.edges == t.edges,
    ensures
        (pipeline_spec(s) is Some) == (pipeline_spec(t) is Some),
{
    if s.tick < u64::MAX {
        let s1 = advance_spec(s).unwrap();
        let t1 = advance_spec(t).unwrap();
        if poll_spec(s1) is Some {
            let s2 = poll_spec(s1).unwrap();
            let t2 = poll_spec(t1).unwrap();
            assert(s2.demands == t2.demands);
            if contention_spec(s2) is Some {
                let s3 = contention_spec(s2).unwrap();
                let t3 = contention_spec(t2).unwrap();
                assert(s3.allocations == t3.allocations);
                if deliver_spec(s3) is Some {
                    let s4 = deliver_spec(s3).unwrap();
                    let t4 = deliver_spec(t3).unwrap();
                    assert(s4.storages == t4.storages && s4.edges == t4.edges);
                    lemma_dispatch_errors_irrelevant(s4.storages, s4.edges, s4.errors, t4.errors, s4.tick, s4.allocations);
                    assert((dispatch_spec(s4) is Some) == (dispatch_spec(t4) is Some));
                }
            }
        }
    }
}

fn copy_storage_rows(v: &Vec<(Entity, Storage)>) -> (r: Vec<(Entity, Storage)>)
    ensures
        r@ == v@,
{
    let mut r: Vec<(Entity, Storage)> = Vec::new();
    let mut i: usize = 0;
    while i < v.len()
        invariant
            i <= v@.len(),
            r@ == v@.take(i as int),
        decreases v.len() - i,
    {
        r.push(v[i]);
        assert(r@ =~= v@.take(i + 1));
        i = i + 1;
    }
    assert(v@.take(v@.len() as int) =~= v@);
    r
}

fn copy_edge_rows(v: &Vec<EdgeRow>) -> (r: Vec<EdgeRow>)
    ensures
        r@.map_values(|x: EdgeRow| edge_row_view(x)) == v@.map_values(|x: EdgeRow| edge_row_view(x)),
{
    let mut r: Vec<EdgeRow> = Vec::new();
    let mut i: usize = 0;
    while i < v.len()
        invariant
            i <= v@.len(),
            r@.len() == i,
            forall|k: int| 0 <= k < i ==> edge_row_view(#[trigger] r@[k]) == edge_row_view(v@[k]),
        decreases v.len() - i,
    {
        let mut packets: Vec<TransitPacket> = Vec::new();
        let mut j: usize = 0;
        while j < v[i].queue.packets.len()
            invariant
                i < v@.len(),
                j <= v@[i as int].queue@.len(),
                packets@ == v@[i as int].queue@.take(j as int),
            decreases v[i as int].queue@.len() - j,
        {
            packets.push(v[i].queue.packets[j]);
            assert(packets@ =~= v@[i as int].queue@.take(j + 1));
            j = j + 1;
        }
        assert(v@[i as int].queue@.take(v@[i as int].queue@.len() as int) =~= v@[i as int].queue@);
        r.push(EdgeRow { entity: v[i].entity, edge: v[i].edge, queue: FlowQueue { packets } });
        i = i + 1;
    }
    assert(r@.map_values(|x: EdgeRow| edge_row_view(x)) =~= v@.map_values(|x: EdgeRow| edge_row_view(x)));
    r
}

/// Whether the next tick of `w` stays within its machine ranges (the tick counter, the
/// running per-destination and per-source totals, and every arrival tick), that is,
/// whether `tick_simulation_world` may be called on it. Decided on a scratch copy of the
/// storages and edges; `w` is not changed.
pub fn tick_fits(w: &World) -> (r: bool)
    ensures
        r == (pipeline_spec(w.net()) is Some),
{
    if w.current_tick.0 == u64::MAX {
        return false;
    }
    let mut scratch = World::new();
    scratch.current_tick = CurrentTick(w.current_tick.0);
    scratch.storages = copy_storage_rows(&w.storages);
    scratch.edges = copy_edge_rows(&w.edges);
    proof {
        lemma_pipeline_same_inputs(w.net(), scratch.net());
    }
    advance_tick_system(&mut scratch);
    if !try_poll(&mut scratch) {
        return false;
    }
    if !try_contention(&mut scratch) {
        return false;
    }
    try_transit(&mut scratch)
}

/// Runs one tick when it stays within its machine ranges: `None` (and `w` unchanged) when
/// it would not, else what `tick_simulation_world` returns.
pub fn try_tick_simulation_world(w: &mut World) -> (r: Option<Result<(), DomainError>>)
    ensures
        r is None <==> pipeline_spec(old(w).net()) is None,
        r is None ==> *final(w) == *old(w),
        r matches Some(res) ==> ({
            let p = pipeline_spec(old(w).net()).unwrap();
            match res {
                Ok(_) => p.errors.len() == 0 && final(w).net() == p,
                Err(e) => p.errors.len() > 0 && e@ == p.errors[0] && final(w).net() == (NetState {
                    errors: Seq::empty(),
                    ..p
                }),
            }
        }),
        final(w).same_outside_net(old(w)),
        old(w).wf() ==> final(w).wf(),
{
    if tick_fits(w) {
        Some(tick_simulation_world(w))
    } else {
        None
    }
}

} // verus!
