//! Phase 3: packet arrival at destinations, then dispatch of allocated packets along edges.

use vstd::prelude::*;
use crate::error::DomainErrorView;
use super::components::{
    deposit_outcome, spec_available, storage_wf, with_amount, withdraw_outcome, Entity, FlowEdge, Storage,
    TransitPacket,
};
use super::resources::{error_views, EdgeAllocation};
use super::types::{clamp_i64, ratio_ok, ratio_quotient, trunc_div, ResourceAmount};
use super::world::{edge_row_view, find_first, lemma_find_from, find_edge_row, find_row, lemma_find_same_keys, EdgeRow, NetState, World};

verus! {

/// Rows of the edge table as the pipeline sees them.
pub type EdgeTable = Seq<(Entity, (FlowEdge, Seq<TransitPacket>))>;

/// Micro-units per unit of edge efficiency (1,000,000 = 100%).
pub const EFFICIENCY_SCALE: i64 = 1_000_000;

/// Arrival of one packet: once due, as much as fits goes into the destination storage and
/// the rest waits one more tick; a packet whose destination is not a storage keeps waiting.
/// `None` when the rescheduled arrival tick would leave `u64`.
pub open spec fn deliver_packet(st: Seq<(Entity, Storage)>, tick: u64, p: TransitPacket) -> Option<
    (Seq<(Entity, Storage)>, Seq<TransitPacket>),
> {
    if p.arrival_tick > tick {
        Some((st, seq![p]))
    } else {
        match find_first(st, p.destination) {
            None => Some((st, seq![p])),
            Some(i) => {
                let avail = spec_available(st[i].1);
                let to_dep = if avail <= p.amount.0 { avail } else { p.amount.0 };
                let st2 = if to_dep > 0 {
                    match deposit_outcome(st[i].1, to_dep) {
                        Ok(s2) => st.update(i, (st[i].0, s2)),
                        Err(_) => st,
                    }
                } else {
                    st
                };
                let rem = if to_dep > 0 { clamp_i64(p.amount.0 - to_dep) } else { p.amount.0 };
                if rem > 0 {
                    if tick < u64::MAX {
                        Some(
                            (
                                st2,
                                seq![
                                    TransitPacket {
                                        amount: ResourceAmount(rem),
                                        arrival_tick: (tick + 1) as u64,
                                        ..p
                                    },
                                ],
                            ),
                        )
                    } else {
                        None
                    }
                } else {
                    Some((st2, Seq::empty()))
                }
            },
        }
    }
}

/// Arrivals for the packets of one queue, in order; returns the storages and the packets kept.
pub open spec fn deliver_queue(st: Seq<(Entity, Storage)>, tick: u64, ps: Seq<TransitPacket>) -> Option<
    (Seq<(Entity, Storage)>, Seq<TransitPacket>),
>
    decreases ps.len(),
{
    if ps.len() == 0 {
        Some((st, Seq::empty()))
    } else {
        match deliver_queue(st, tick, ps.drop_last()) {
            None => None,
            Some(r) => match deliver_packet(r.0, tick, ps.last()) {
                None => None,
                Some(r2) => Some((r2.0, r.1 + r2.1)),
            },
        }
    }
}

/// Arrivals for every edge's queue, edge by edge.
pub open spec fn deliver_edges(st: Seq<(Entity, Storage)>, tick: u64, es: EdgeTable) -> Option<
    (Seq<(Entity, Storage)>, EdgeTable),
>
    decreases es.len(),
{
    if es.len() == 0 {
        Some((st, Seq::empty()))
    } else {
        match deliver_edges(st, tick, es.drop_last()) {
            None => None,
            Some(r) => match deliver_queue(r.0, tick, es.last().1.1) {
                None => None,
                Some(q) => Some((q.0, r.1.push((es.last().0, (es.last().1.0, q.1))))),
            },
        }
    }
}

/// Amount that leaves an edge for `sent` micro-units put in: `sent * efficiency / 1e6`,
/// or `sent` itself when that ratio cannot be computed.
pub open spec fn transmitted(sent: i64, efficiency: u32) -> i64 {
    if ratio_ok(sent, efficiency as i64, EFFICIENCY_SCALE) {
        ratio_quotient(sent, efficiency as i64, EFFICIENCY_SCALE) as i64
    } else {
        sent
    }
}

/// Dispatch of one allocation: the amount is withdrawn from the edge's source and a packet
/// due at `tick + latency` joins the edge's queue. A failed withdrawal logs its error.
pub open spec fn dispatch_one(
    s: (Seq<(Entity, Storage)>, EdgeTable, Seq<DomainErrorView>),
    tick: u64,
    a: EdgeAllocation,
) -> Option<(Seq<(Entity, Storage)>, EdgeTable, Seq<DomainErrorView>)> {
    if a.allocated_amount.0 <= 0 {
        Some(s)
    } else {
        match find_first(s.1, a.edge_entity) {
            None => Some(s),
            Some(ei) => {
                let edge = s.1[ei].1.0;
                match find_first(s.0, edge.source) {
                    None => Some(s),
                    Some(si) => match withdraw_outcome(s.0[si].1, a.allocated_amount.0) {
                        Err(e) => Some((s.0, s.1, s.2.push(e))),
                        Ok(s2) => if tick + edge.latency <= u64::MAX {
                            let p = TransitPacket {
                                element_id: s2.element_id,
                                amount: ResourceAmount(transmitted(a.allocated_amount.0, edge.efficiency_millionths)),
                                arrival_tick: (tick + edge.latency) as u64,
                                destination: edge.destination,
                            };
                            Some(
                                (
                                    s.0.update(si, (s.0[si].0, s2)),
                                    s.1.update(ei, (s.1[ei].0, (edge, s.1[ei].1.1.push(p)))),
                                    s.2,
                                ),
                            )
                        } else {
                            None
                        },
                    },
                }
            },
        }
    }
}

/// Dispatch of all allocations, in order.
pub open spec fn dispatch_all(
    s: (Seq<(Entity, Storage)>, EdgeTable, Seq<DomainErrorView>),
    tick: u64,
    allocs: Seq<EdgeAllocation>,
) -> Option<(Seq<(Entity, Storage)>, EdgeTable, Seq<DomainErrorView>)>
    decreases allocs.len(),
{
    if allocs.len() == 0 {
        Some(s)
    } else {
        match dispatch_all(s, tick, allocs.drop_last()) {
            None => None,
            Some(r) => dispatch_one(r, tick, allocs.last()),
        }
    }
}

/// Arrival half of phase 3.
pub open spec fn deliver_spec(s: NetState) -> Option<NetState> {
    match deliver_edges(s.storages, s.tick, s.edges) {
        None => None,
        Some(r) => Some(NetState { storages: r.0, edges: r.1, ..s }),
    }
}

/// Dispatch half of phase 3.
pub open spec fn dispatch_spec(s: NetState) -> Option<NetState> {
    match dispatch_all((s.storages, s.edges, s.errors), s.tick, s.allocations) {
        None => None,
        Some(r) => Some(NetState { storages: r.0, edges: r.1, errors: r.2, ..s }),
    }
}

/// Phase 3: arrivals first, then dispatch.
pub open spec fn transit_spec(s: NetState) -> Option<NetState> {
    match deliver_spec(s) {
        None => None,
        Some(s1) => dispatch_spec(s1),
    }
}

proof fn lemma_deliver_queue_prefix(st: Seq<(Entity, Storage)>, tick: u64, ps: Seq<TransitPacket>, k: int)
    requires
        0 <= k <= ps.len(),
        deliver_queue(st, tick, ps) is Some,
    ensures
        deliver_queue(st, tick, ps.take(k)) is Some,
    decreases ps.len(),
{
    if k == ps.len() {
        assert(ps.take(k) =~= ps);
    } else {
        lemma_deliver_queue_prefix(st, tick, ps.drop_last(), k);
        assert(ps.drop_last().take(k) =~= ps.take(k));
    }
}

proof fn lemma_deliver_edges_prefix(st: Seq<(Entity, Storage)>, tick: u64, es: EdgeTable, k: int)
    requires
        0 <= k <= es.len(),
        deliver_edges(st, tick, es) is Some,
    ensures
        deliver_edges(st, tick, es.take(k)) is Some,
    decreases es.len(),
{
    if k == es.len() {
        assert(es.take(k) =~= es);
    } else {
        lemma_deliver_edges_prefix(st, tick, es.drop_last(), k);
        assert(es.drop_last().take(k) =~= es.take(k));
    }
}

pub(crate) proof fn lemma_deliver_edges_len(st: Seq<(Entity, Storage)>, tick: u64, es: EdgeTable)
    requires
        deliver_edges(st, tick, es) is Some,
    ensures
        deliver_edges(st, tick, es).unwrap().1.len() == es.len(),
        forall|m: int|
            0 <= m < es.len() ==> (#[trigger] deliver_edges(st, tick, es).unwrap().1[m]).0 == es[m].0
                && deliver_edges(st, tick, es).unwrap().1[m].1.0 == es[m].1.0,
    decreases es.len(),
{
    if es.len() > 0 {
        lemma_deliver_edges_len(st, tick, es.drop_last());
    }
}

proof fn lemma_dispatch_prefix(
    s: (Seq<(Entity, Storage)>, EdgeTable, Seq<DomainErrorView>),
    tick: u64,
    allocs: Seq<EdgeAllocation>,
    k: int,
)
    requires
        0 <= k <= allocs.len(),
        dispatch_all(s, tick, allocs) is Some,
    ensures
        dispatch_all(s, tick, allocs.take(k)) is Some,
    decreases allocs.len(),
{
    if k == allocs.len() {
        assert(allocs.take(k) =~= allocs);
    } else {
        lemma_dispatch_prefix(s, tick, allocs.drop_last(), k);
        assert(allocs.drop_last().take(k) =~= allocs.take(k));
    }
}

/// A queue whose packets are all still in flight (due after `tick`) is left exactly as it
/// was, and no storage changes.
pub proof fn law_undue_packets_wait(st: Seq<(Entity, Storage)>, tick: u64, ps: Seq<TransitPacket>)
    requires
        forall|i: int| 0 <= i < ps.len() ==> #[trigger] ps[i].arrival_tick > tick,
    ensures
        deliver_queue(st, tick, ps) == Some((st, ps)),
    decreases ps.len(),
{
    if ps.len() > 0 {
        law_undue_packets_wait(st, tick, ps.drop_last());
        assert(ps.last().arrival_tick > tick);
        assert(ps.drop_last() + seq![ps.last()] =~= ps);
    }
}

/// A due packet whose whole amount fits in its destination storage is delivered in full on
/// arrival: the destination's amount grows by the packet's amount and the packet leaves the
/// queue.
pub proof fn law_due_packet_delivered_when_room(st: Seq<(Entity, Storage)>, tick: u64, p: TransitPacket, i: int)
    requires
        find_first(st, p.destination) == Some(i),
        storage_wf(st[i].1),
        p.arrival_tick <= tick,
        0 < p.amount.0 <= spec_available(st[i].1),
    ensures
        deliver_packet(st, tick, p) == Some(
            (
                st.update(i, (st[i].0, with_amount(st[i].1, st[i].1.current_amount.0 + p.amount.0))),
                Seq::<TransitPacket>::empty(),
            ),
        ),
{
}

/// A due packet larger than the free room of its (well-formed) destination fills the
/// destination to capacity, and the rest stays queued, due one tick later.
pub proof fn law_due_packet_partly_delivered(st: Seq<(Entity, Storage)>, tick: u64, p: TransitPacket, i: int)
    requires
        find_first(st, p.destination) == Some(i),
        storage_wf(st[i].1),
        p.arrival_tick <= tick < u64::MAX,
        spec_available(st[i].1) < p.amount.0,
    ensures
        deliver_packet(st, tick, p) == Some(
            (
                if spec_available(st[i].1) > 0 {
                    st.update(i, (st[i].0, with_amount(st[i].1, st[i].1.capacity.0 as int)))
                } else {
                    st
                },
                seq![TransitPacket { amount: ResourceAmount((p.amount.0 - spec_available(st[i].1)) as i64), arrival_tick: (tick + 1) as u64, ..p }],
            ),
        ),
{
    lemma_find_from(st, p.destination, 0);
}

/// Transmission loses exactly the edge's inefficiency: `sent >= 0` micro-units put into an
/// edge of efficiency `e` millionths (at most 100%) arrive as `sent * e / 1,000,000` rounded
/// down, never more than was sent.
pub proof fn law_transmission_scales_with_efficiency(sent: i64, efficiency: u32)
    requires
        sent >= 0,
        efficiency <= 1_000_000,
    ensures
        0 <= transmitted(sent, efficiency) <= sent,
        transmitted(sent, efficiency) * 1_000_000 <= sent * efficiency < transmitted(sent, efficiency) * 1_000_000
            + 1_000_000,
{
    let a = sent as int;
    let e = efficiency as int;
    let p = a * e;
    assert(0 <= p <= a * 1_000_000) by (nonlinear_arith)
        requires
            a >= 0,
            0 <= e <= 1_000_000,
            p == a * e,
    ;
    let q = p / 1_000_000;
    assert(p == 1_000_000 * q + p % 1_000_000 && 0 <= p % 1_000_000 < 1_000_000) by {
        vstd::arithmetic::div_mod::lemma_fundamental_div_mod(p, 1_000_000);
        vstd::arithmetic::div_mod::lemma_mod_pos_bound(p, 1_000_000);
    }
    assert(0 <= q <= a);
    assert(trunc_div(p, 1_000_000) == q);
    assert(ratio_quotient(sent, efficiency as i64, EFFICIENCY_SCALE) == q);
}

/// A packet dispatched at tick `t` along an edge of latency `L` is due at `t + L`: the
/// allocation's amount leaves the source and the packet joins the edge's queue.
pub proof fn law_dispatch_schedules_latency(
    s: (Seq<(Entity, Storage)>, EdgeTable, Seq<DomainErrorView>),
    tick: u64,
    a: EdgeAllocation,
    ei: int,
    si: int,
)
    requires
        a.allocated_amount.0 > 0,
        find_first(s.1, a.edge_entity) == Some(ei),
        find_first(s.0, s.1[ei].1.0.source) == Some(si),
        storage_wf(s.0[si].1),
        a.allocated_amount.0 <= s.0[si].1.current_amount.0,
        tick + s.1[ei].1.0.latency <= u64::MAX,
    ensures
        dispatch_one(s, tick, a) matches Some(r) && r.2 == s.2 && r.0[si].1.current_amount.0
            == s.0[si].1.current_amount.0 - a.allocated_amount.0 && r.1[ei].1.1 == s.1[ei].1.1.push(
            TransitPacket {
                element_id: s.0[si].1.element_id,
                amount: ResourceAmount(transmitted(a.allocated_amount.0, s.1[ei].1.0.efficiency_millionths)),
                arrival_tick: (tick + s.1[ei].1.0.latency) as u64,
                destination: s.1[ei].1.0.destination,
            },
        ),
{
    lemma_find_from(s.1, a.edge_entity, 0);
    lemma_find_from(s.0, s.1[ei].1.0.source, 0);
}

/// Arrival half of phase 3, checked: reports whether every rescheduled arrival tick stayed
/// within `u64`; when it did, the world is as `deliver_spec` says.
pub(crate) fn try_deliver(w: &mut World) -> (ok: bool)
    ensures
        ok == deliver_spec(old(w).net()) is Some,
        ok ==> final(w).net() == deliver_spec(old(w).net()).unwrap(),
        final(w).same_outside_net(old(w)),
{
    let ghost s = w.net();
    let ghost es = s.edges;
    let tick = w.current_tick.0;
    let n = w.edges.len();
    let mut i: usize = 0;
    while i < n
        invariant
            n == es.len(),
            tick == s.tick,
            s == old(w).net(),
            es == s.edges,
            w.edges@.len() == n,
            0 <= i <= n,
            ({
                let r = deliver_edges(s.storages, tick, es.take(i as int)).unwrap();
                &&& deliver_edges(s.storages, tick, es.take(i as int)) is Some
                &&& w.storages@ == r.0
                &&& w.net().edges == r.1 + es.skip(i as int)
            }),
            w.current_tick.0 == tick,
            w.same_outside_net(old(w)),
            w.converters@ == s.converters,
            w.net().bindings == s.bindings,
            w.relocating@ == s.relocating,
            w.recipes@ == s.recipes,
            w.pending_demand.demands@ == s.demands,
            w.flow_allocations.allocations@ == s.allocations,
            w.error_log.errors@ == old(w).error_log.errors@,
        decreases n - i,
    {
        proof {
            assert(es.take(i + 1).drop_last() =~= es.take(i as int));
            assert(es.take(i + 1).last() == es[i as int]);
        }
        let ghost prev = deliver_edges(s.storages, tick, es.take(i as int)).unwrap();
        let ghost ps = es[i as int].1.1;
        proof {
            lemma_deliver_edges_len(s.storages, tick, es.take(i as int));
            assert(w.net().edges[i as int] == es[i as int]);
        }
        let m = w.edges[i].queue.packets.len();
        let mut remaining: Vec<TransitPacket> = Vec::new();
        let mut j: usize = 0;
        let ghost st0 = w.storages@;
        assert(st0 == prev.0);
        while j < m
            invariant
                0 <= i < n,
                w.edges@.len() == n,
                ps == w.edges@[i as int].queue@,
                m == ps.len(),
                0 <= j <= m,
                n == es.len(),
                s == old(w).net(),
                es == s.edges,
                tick == s.tick,
                deliver_edges(s.storages, tick, es.take(i as int)) == Some(prev),
                prev.0 == st0,
                es.take(i + 1).drop_last() == es.take(i as int),
                es.take(i + 1).last() == es[i as int],
                ps == es[i as int].1.1,
                deliver_queue(st0, tick, ps.take(j as int)) is Some,
                deliver_queue(st0, tick, ps.take(j as int)).unwrap() == (w.storages@, remaining@),
                w.current_tick.0 == tick,
                w.net().edges == prev.1 + es.skip(i as int),
                prev.1.len() == i,
                w.same_outside_net(old(w)),
                w.converters@ == s.converters,
                w.net().bindings == s.bindings,
                w.relocating@ == s.relocating,
                w.recipes@ == s.recipes,
                w.pending_demand.demands@ == s.demands,
                w.flow_allocations.allocations@ == s.allocations,
                w.error_log.errors@ == old(w).error_log.errors@,
            decreases m - j,
        {
            proof {
                assert(ps.take(j + 1).drop_last() =~= ps.take(j as int));
                assert(ps.take(j + 1).last() == ps[j as int]);
            }
            let ghost st_before = w.storages@;
            let ghost kept_before = remaining@;
            let p = w.edges[i].queue.packets[j];
            if p.arrival_tick <= tick {
                match find_row(&w.storages, p.destination) {
                    Some(si) => {
                        let ent = w.storages[si].0;
                        let mut dest = w.storages[si].1;
                        let available = dest.available_capacity();
                        let to_deposit = available.min_amount(p.amount);
                        let mut amount = p.amount;
                        if to_deposit.is_positive() {
                            let _ = dest.deposit(to_deposit);
                            amount = amount.saturating_sub(to_deposit);
                        }
                        if amount.is_positive() && tick == u64::MAX {
                            proof {
                                assert(deliver_queue(st0, tick, ps.take(j + 1)) is None);
                                if deliver_queue(st0, tick, ps) is Some {
                                    lemma_deliver_queue_prefix(st0, tick, ps, j + 1);
                                }
                                assert(deliver_edges(s.storages, tick, es.take(i + 1)) is None);
                                if deliver_edges(s.storages, tick, es) is Some {
                                    lemma_deliver_edges_prefix(s.storages, tick, es, i + 1);
                                }
                            }
                            return false;
                        }
                        w.storages.set(si, (ent, dest));
                        if amount.is_positive() {
                            remaining.push(TransitPacket { amount, arrival_tick: tick + 1, ..p });
                        }
                        proof {
                            if !(to_deposit.0 > 0) || deposit_outcome(st_before[si as int].1, to_deposit.0) is Err {
                                assert(w.storages@ =~= st_before);
                            }
                        }
                    },
                    None => {
                        remaining.push(p);
                    },
                }
            } else {
                remaining.push(p);
            }
            assert(remaining@ =~= kept_before + deliver_packet(st_before, tick, p).unwrap().1);
            j = j + 1;
        }
        assert(ps.take(m as int) =~= ps);
        let ghost kept = remaining@;
        let ghost old_rows = w.edges@;
        let ghost old_view = w.net().edges;
        w.edges[i].queue.packets = remaining;
        proof {
            let r_next = deliver_edges(s.storages, tick, es.take(i + 1)).unwrap();
            assert(r_next.1 == prev.1.push((es[i as int].0, (es[i as int].1.0, kept))));
            assert(w.edges@.len() == n);
            assert(forall|m: int| 0 <= m < n && m != i ==> w.edges@[m] == old_rows[m]);
            assert(w.edges@[i as int].entity == old_rows[i as int].entity);
            assert(w.edges@[i as int].edge == old_rows[i as int].edge);
            assert(w.edges@[i as int].queue@ == kept);
            assert forall|m: int| 0 <= m < n implies #[trigger] w.net().edges[m] == (r_next.1 + es.skip(
                i + 1,
            ))[m] by {
                if m < i {
                    assert(old_view[m] == prev.1[m]);
                } else if m > i {
                    assert(old_view[m] == es.skip(i as int)[m - i]);
                }
            }
            assert(w.net().edges =~= r_next.1 + es.skip(i + 1));
        }
        i = i + 1;
    }
    assert(es.take(n as int) =~= es);
    assert(w.net() =~= deliver_spec(s).unwrap());
    true
}

/// Arrival half of phase 3: delivers every due packet into its destination storage as far
/// as capacity allows; the remainder is rescheduled for the next tick.
pub fn deliver_arrived_packets(w: &mut World)
    requires
        deliver_spec(old(w).net()) is Some,
    ensures
        final(w).net() == deliver_spec(old(w).net()).unwrap(),
        final(w).same_outside_net(old(w)),
{
    try_deliver(w);
}

/// Dispatch half of phase 3, checked: reports whether every arrival tick stayed within
/// `u64`; when it did, the world is as `dispatch_spec` says.
pub(crate) fn try_dispatch(w: &mut World) -> (ok: bool)
    ensures
        ok == dispatch_spec(old(w).net()) is Some,
        ok ==> final(w).net() == dispatch_spec(old(w).net()).unwrap(),
        final(w).same_outside_net(old(w)),
{
    let ghost s = w.net();
    let ghost allocs = s.allocations;
    let tick = w.current_tick.0;
    let n = w.flow_allocations.allocations.len();
    let mut k: usize = 0;
    while k < n
        invariant
            n == allocs.len(),
            allocs == w.flow_allocations.allocations@,
            tick == s.tick,
            s == old(w).net(),
            allocs == s.allocations,
            0 <= k <= n,
            dispatch_all((s.storages, s.edges, s.errors), tick, allocs.take(k as int)) is Some,
            dispatch_all((s.storages, s.edges, s.errors), tick, allocs.take(k as int)).unwrap() == (
                w.storages@,
                w.net().edges,
                w.net().errors,
            ),
            w.current_tick.0 == tick,
            w.same_outside_net(old(w)),
            w.converters@ == s.converters,
            w.net().bindings == s.bindings,
            w.relocating@ == s.relocating,
            w.recipes@ == s.recipes,
            w.pending_demand.demands@ == s.demands,
        decreases n - k,
    {
        proof {
            assert(allocs.take(k + 1).drop_last() =~= allocs.take(k as int));
        }
        let ghost before = (w.storages@, w.net().edges, w.net().errors);
        let alloc = w.flow_allocations.allocations[k];
        if alloc.allocated_amount.is_positive() {
            match find_edge_row(&w.edges, alloc.edge_entity) {
                Some(ei) => {
                    let edge = w.edges[ei].edge;
                    match find_row(&w.storages, edge.source) {
                        Some(si) => {
                            let ent = w.storages[si].0;
                            let mut src = w.storages[si].1;
                            match src.withdraw(alloc.allocated_amount) {
                                Err(e) => {
                                    let ghost ev = e@;
                                    w.error_log.push(e);
                                    assert(w.net().errors =~= before.2.push(ev));
                                },
                                Ok(_) => {
                                    if edge.latency > u64::MAX - tick {
                                        proof {
                                            assert(allocs.take(k + 1).last() == alloc);
                                            assert(dispatch_all((s.storages, s.edges, s.errors), tick, allocs.take(k + 1)) is None);
                                            if dispatch_all((s.storages, s.edges, s.errors), tick, allocs) is Some {
                                                lemma_dispatch_prefix((s.storages, s.edges, s.errors), tick, allocs, k + 1);
                                            }
                                        }
                                        return false;
                                    }
                                    w.storages.set(si, (ent, src));
                                    let packet_amount = match alloc.allocated_amount.checked_mul_ratio(
                                        edge.efficiency_millionths as i64,
                                        EFFICIENCY_SCALE,
                                    ) {
                                        Ok(a) => a,
                                        Err(_) => alloc.allocated_amount,
                                    };
                                    let p = TransitPacket {
                                        element_id: src.element_id,
                                        amount: packet_amount,
                                        arrival_tick: tick + edge.latency,
                                        destination: edge.destination,
                                    };
                                    let ghost old_rows = w.edges@;
                                    w.edges[ei].queue.packets.push(p);
                                    proof {
                                        let row = before.1[ei as int];
                                        let target = before.1.update(ei as int, (row.0, (edge, row.1.1.push(p))));
                                        assert(w.edges@.len() == old_rows.len());
                                        assert forall|m: int| 0 <= m < old_rows.len() implies #[trigger] w.net().edges[m]
                                            == target[m] by {
                                            if m != ei {
                                                assert(w.edges@[m] == old_rows[m]);
                                            }
                                        }
                                        assert(w.net().edges =~= target);
                                    }
                                },
                            }
                        },
                        None => {},
                    }
                },
                None => {},
            }
        }
        assert(allocs.take(k + 1).last() == alloc);
        k = k + 1;
    }
    assert(allocs.take(n as int) =~= allocs);
    assert(w.net() =~= dispatch_spec(s).unwrap());
    true
}

/// Dispatch half of phase 3: for each positive allocation, withdraws it from the edge's
/// source and queues a packet (scaled by the edge's efficiency) due after the edge's latency.
pub fn dispatch_transit_packets(w: &mut World)
    requires
        dispatch_spec(old(w).net()) is Some,
    ensures
        final(w).net() == dispatch_spec(old(w).net()).unwrap(),
        final(w).same_outside_net(old(w)),
{
    try_dispatch(w);
}

/// Phase 3, checked: reports whether every arrival tick stayed within `u64`; when it did,
/// the world is as `transit_spec` says.
pub(crate) fn try_transit(w: &mut World) -> (ok: bool)
    ensures
        ok == transit_spec(old(w).net()) is Some,
        ok ==> final(w).net() == transit_spec(old(w).net()).unwrap(),
        final(w).same_outside_net(old(w)),
{
    if !try_deliver(w) {
        return false;
    }
    try_dispatch(w)
}

/// Whether dispatch succeeds, and the storages and edges it leaves, do not depend on the
/// errors logged before it.
pub proof fn lemma_dispatch_errors_irrelevant(
    st: Seq<(Entity, Storage)>,
    es: EdgeTable,
    e1: Seq<DomainErrorView>,
    e2: Seq<DomainErrorView>,
    tick: u64,
    allocs: Seq<EdgeAllocation>,
)
    ensures
        (dispatch_all((st, es, e1), tick, allocs) is Some) == (dispatch_all((st, es, e2), tick, allocs) is Some),
        dispatch_all((st, es, e1), tick, allocs) is Some ==> dispatch_all((st, es, e1), tick, allocs).unwrap().0
            == dispatch_all((st, es, e2), tick, allocs).unwrap().0 && dispatch_all((st, es, e1), tick, allocs).unwrap().1
            == dispatch_all((st, es, e2), tick, allocs).unwrap().1,
    decreases allocs.len(),
{
    if allocs.len() > 0 {
        lemma_dispatch_errors_irrelevant(st, es, e1, e2, tick, allocs.drop_last());
    }
}

/// Phase 3: delivers due packets, then dispatches this tick's allocations.
pub fn transit_flow_system(w: &mut World)
    requires
        transit_spec(old(w).net()) is Some,
    ensures
        final(w).net() == transit_spec(old(w).net()).unwrap(),
        final(w).same_outside_net(old(w)),
{
    deliver_arrived_packets(w);
    dispatch_transit_packets(w);
}

} // verus!
