//! Ticks that log no error: on well-formed storages and edge tables whose edge entities are
//! distinct, dispatch never asks a source for more than it holds, and balanced converters
//! log nothing.

use vstd::prelude::*;
use crate::error::DomainErrorView;
use super::components::{deposit_outcome, spec_available, storage_wf, with_amount, withdraw_outcome, Entity, Storage, TransitPacket};
use super::laws::same_rows;
use super::resources::{EdgeAllocation, EdgeDemand};
use super::demand::{first_of_source, resolve_upto, source_group, source_stock};
use super::allocation::{all_positive, allocate_group, allocation_arith_ok, law_rationing_never_overdraws, sum_allocated, sum_requested};
use super::types::{in_i64, ResourceAmount};
use super::components::{spec_operational, FlowEdge, MAX_HEALTH};
use super::demand::{contention_spec, law_poll_respects_backpressure, poll_edge, poll_edges, poll_spec, tally_edges, Tally};
use super::laws::{ticks, balanced_converters, balanced_recipe, balanced_rows, lemma_converters_all_mass};
use super::systems::{advance_spec, pipeline_spec, relocating_spec};
use super::transit::{deliver_spec, lemma_deliver_edges_len, transit_spec};
use super::world::{NetState, World};
use super::transit::{deliver_edges, deliver_packet, deliver_queue, dispatch_all, dispatch_one, EdgeTable};
use super::world::{find_first, lemma_find_from, lemma_find_same_keys};

verus! {

/// Every storage of the table holds between zero and its capacity.
pub open spec fn all_wf(st: Seq<(Entity, Storage)>) -> bool {
    forall|m: int| 0 <= m < st.len() ==> #[trigger] storage_wf(st[m].1)
}

/// `b` has the rows of `a`, none holding less.
pub open spec fn grows(a: Seq<(Entity, Storage)>, b: Seq<(Entity, Storage)>) -> bool {
    &&& same_rows(a, b)
    &&& forall|m: int| 0 <= m < a.len() ==> a[m].1.current_amount.0 <= #[trigger] b[m].1.current_amount.0
}

/// No two rows of the edge table belong to the same entity.
pub open spec fn distinct_edge_keys(es: EdgeTable) -> bool {
    forall|i: int, j: int| 0 <= i < j < es.len() ==> #[trigger] es[i].0 != #[trigger] es[j].0
}

proof fn lemma_grows_trans(a: Seq<(Entity, Storage)>, b: Seq<(Entity, Storage)>, c: Seq<(Entity, Storage)>)
    requires
        grows(a, b),
        grows(b, c),
    ensures
        grows(a, c),
{
    assert(same_rows(a, b) && same_rows(b, c));
    assert(a.len() == b.len() && b.len() == c.len());
    assert forall|m: int| 0 <= m < a.len() implies #[trigger] c[m].0 == a[m].0 && c[m].1.element_id
        == a[m].1.element_id && c[m].1.capacity == a[m].1.capacity by {
        assert(b[m].0 == a[m].0 && b[m].1.element_id == a[m].1.element_id && b[m].1.capacity == a[m].1.capacity);
        assert(c[m].0 == b[m].0 && c[m].1.element_id == b[m].1.element_id && c[m].1.capacity == b[m].1.capacity);
    }
    assert forall|m: int| 0 <= m < a.len() implies a[m].1.current_amount.0 <= #[trigger] c[m].1.current_amount.0 by {
        assert(a[m].1.current_amount.0 <= b[m].1.current_amount.0);
        assert(b[m].1.current_amount.0 <= c[m].1.current_amount.0);
    }
}

proof fn lemma_grows_refl(a: Seq<(Entity, Storage)>)
    ensures
        grows(a, a),
{
}

proof fn lemma_deliver_packet_grows(st: Seq<(Entity, Storage)>, tick: u64, p: TransitPacket)
    requires
        deliver_packet(st, tick, p) is Some,
    ensures
        grows(st, deliver_packet(st, tick, p).unwrap().0),
        all_wf(st) ==> all_wf(deliver_packet(st, tick, p).unwrap().0),
{
    let r = deliver_packet(st, tick, p).unwrap();
    if p.arrival_tick <= tick {
        if let Some(i) = find_first(st, p.destination) {
            lemma_find_from(st, p.destination, 0);
            let avail = spec_available(st[i].1);
            let to_dep = if avail <= p.amount.0 { avail } else { p.amount.0 };
            if to_dep > 0 {
                if let Ok(s2) = deposit_outcome(st[i].1, to_dep) {
                    assert(r.0 == st.update(i, (st[i].0, s2)));
                    assert(s2 == with_amount(st[i].1, st[i].1.current_amount.0 + to_dep));
                    assert forall|m: int| 0 <= m < st.len() implies st[m].1.current_amount.0
                        <= #[trigger] r.0[m].1.current_amount.0 by {}
                    if all_wf(st) {
                        assert(storage_wf(st[i].1));
                        assert forall|m: int| 0 <= m < r.0.len() implies #[trigger] storage_wf(r.0[m].1) by {
                            assert(storage_wf(st[m].1));
                        }
                    }
                }
            }
        }
    }
}

proof fn lemma_deliver_queue_grows(st: Seq<(Entity, Storage)>, tick: u64, ps: Seq<TransitPacket>)
    requires
        deliver_queue(st, tick, ps) is Some,
    ensures
        grows(st, deliver_queue(st, tick, ps).unwrap().0),
        all_wf(st) ==> all_wf(deliver_queue(st, tick, ps).unwrap().0),
    decreases ps.len(),
{
    if ps.len() > 0 {
        lemma_deliver_queue_grows(st, tick, ps.drop_last());
        let r = deliver_queue(st, tick, ps.drop_last()).unwrap();
        lemma_deliver_packet_grows(r.0, tick, ps.last());
        lemma_grows_trans(st, r.0, deliver_packet(r.0, tick, ps.last()).unwrap().0);
    } else {
        lemma_grows_refl(st);
    }
}

/// Arrivals only add to storages, keeping their rows and their bounds.
pub proof fn lemma_deliver_edges_grows(st: Seq<(Entity, Storage)>, tick: u64, es: EdgeTable)
    requires
        deliver_edges(st, tick, es) is Some,
    ensures
        grows(st, deliver_edges(st, tick, es).unwrap().0),
        all_wf(st) ==> all_wf(deliver_edges(st, tick, es).unwrap().0),
    decreases es.len(),
{
    if es.len() > 0 {
        lemma_deliver_edges_grows(st, tick, es.drop_last());
        let r = deliver_edges(st, tick, es.drop_last()).unwrap();
        lemma_deliver_queue_grows(r.0, tick, es.last().1.1);
        lemma_grows_trans(st, r.0, deliver_queue(r.0, tick, es.last().1.1).unwrap().0);
    } else {
        lemma_grows_refl(st);
    }
}

/// The source entity of the edge an allocation draws on, if the edge exists.
pub open spec fn alloc_source(es: EdgeTable, a: EdgeAllocation) -> Option<Entity> {
    match find_first(es, a.edge_entity) {
        Some(i) => Some(es[i].1.0.source),
        None => None,
    }
}

/// What one allocation asks of source `x`: its amount when positive and drawn on `x`.
pub open spec fn draw(es: EdgeTable, a: EdgeAllocation, x: Entity) -> int {
    if a.allocated_amount.0 > 0 && alloc_source(es, a) == Some(x) {
        a.allocated_amount.0 as int
    } else {
        0
    }
}

/// Total that a sequence of allocations asks of source `x`.
pub open spec fn drawn_on(es: EdgeTable, al: Seq<EdgeAllocation>, x: Entity) -> int
    decreases al.len(),
{
    if al.len() == 0 {
        0
    } else {
        drawn_on(es, al.drop_last(), x) + draw(es, al.last(), x)
    }
}

proof fn lemma_drawn_prefix(es: EdgeTable, al: Seq<EdgeAllocation>, x: Entity, k: int)
    requires
        0 <= k <= al.len(),
    ensures
        0 <= drawn_on(es, al.take(k), x) <= drawn_on(es, al, x),
    decreases al.len(),
{
    if k == al.len() {
        assert(al.take(k) =~= al);
        lemma_drawn_nonneg(es, al, x);
    } else {
        lemma_drawn_prefix(es, al.drop_last(), x, k);
        assert(al.drop_last().take(k) =~= al.take(k));
    }
}

proof fn lemma_drawn_nonneg(es: EdgeTable, al: Seq<EdgeAllocation>, x: Entity)
    ensures
        drawn_on(es, al, x) >= 0,
    decreases al.len(),
{
    if al.len() > 0 {
        lemma_drawn_nonneg(es, al.drop_last(), x);
    }
}

/// What the allocations ask of row `m` of a storage table: what they draw on its entity when
/// it is that entity's first row (the row lookups reach), else nothing.
pub open spec fn row_drawn(st: Seq<(Entity, Storage)>, es: EdgeTable, al: Seq<EdgeAllocation>, m: int) -> int {
    if find_first(st, st[m].0) == Some(m) {
        drawn_on(es, al, st[m].0)
    } else {
        0
    }
}

/// Dispatch when no source is asked for more than it holds: nothing is logged, each storage
/// row loses exactly what was drawn on it, storages stay within their bounds, and the edge
/// table keeps its rows and edges.
pub proof fn lemma_dispatch_clean(
    s0: (Seq<(Entity, Storage)>, EdgeTable, Seq<DomainErrorView>),
    tick: u64,
    al: Seq<EdgeAllocation>,
    k: int,
)
    requires
        0 <= k <= al.len(),
        dispatch_all(s0, tick, al.take(k)) is Some,
        all_wf(s0.0),
        forall|x: Entity| #[trigger] drawn_on(s0.1, al, x) <= source_stock(s0.0, x),
    ensures
        ({
            let r = dispatch_all(s0, tick, al.take(k)).unwrap();
            &&& r.2 == s0.2
            &&& same_rows(s0.0, r.0)
            &&& all_wf(r.0)
            &&& r.1.len() == s0.1.len()
            &&& forall|m: int| 0 <= m < s0.1.len() ==> (#[trigger] r.1[m]).0 == s0.1[m].0 && r.1[m].1.0 == s0.1[m].1.0
            &&& forall|m: int|
                0 <= m < s0.0.len() ==> #[trigger] r.0[m].1.current_amount.0 == s0.0[m].1.current_amount.0
                    - row_drawn(s0.0, s0.1, al.take(k), m)
        }),
    decreases k,
{
    if k == 0 {
        assert(al.take(0) =~= Seq::<EdgeAllocation>::empty());
    } else {
        let p = al.take(k - 1);
        assert(al.take(k).drop_last() =~= p);
        let a = al[k - 1];
        assert(al.take(k).last() == a);
        lemma_dispatch_clean(s0, tick, al, k - 1);
        let r = dispatch_all(s0, tick, p).unwrap();
        let r2 = dispatch_all(s0, tick, al.take(k)).unwrap();
        assert(r2 == dispatch_one(r, tick, a).unwrap());
        assert forall|x: Entity| #[trigger] drawn_on(s0.1, al.take(k), x) == drawn_on(s0.1, p, x) + draw(s0.1, a, x) by {}
        assert forall|m: int| 0 <= m < s0.0.len() implies #[trigger] r.0[m].0 == s0.0[m].0 by {}
        assert forall|m: int| 0 <= m < s0.1.len() implies #[trigger] r.1[m].0 == s0.1[m].0 by {}
        lemma_find_same_keys(s0.1, r.1, a.edge_entity, 0);
        lemma_find_from(s0.1, a.edge_entity, 0);
        let withdrawn: Option<int> = if a.allocated_amount.0 > 0 {
            match find_first(r.1, a.edge_entity) {
                Some(ei) => find_first(r.0, r.1[ei].1.0.source),
                None => None,
            }
        } else {
            None
        };
        if let Some(si) = withdrawn {
            let ei = find_first(r.1, a.edge_entity).unwrap();
            let x = r.1[ei].1.0.source;
            assert(r.1[ei].1.0 == s0.1[ei].1.0);
            assert(alloc_source(s0.1, a) == Some(x));
            lemma_find_same_keys(s0.0, r.0, x, 0);
            lemma_find_from(s0.0, x, 0);
            lemma_drawn_prefix(s0.1, al, x, k);
            assert(drawn_on(s0.1, al, x) <= source_stock(s0.0, x));
            assert(row_drawn(s0.0, s0.1, p, si) == drawn_on(s0.1, p, x));
            assert(a.allocated_amount.0 <= r.0[si].1.current_amount.0);
            let s2 = with_amount(r.0[si].1, r.0[si].1.current_amount.0 - a.allocated_amount.0);
            assert(withdraw_outcome(r.0[si].1, a.allocated_amount.0) == Ok::<Storage, DomainErrorView>(s2));
            assert(r2.0 == r.0.update(si, (r.0[si].0, s2)));
            assert forall|m: int| 0 <= m < s0.0.len() implies #[trigger] r2.0[m].1.current_amount.0
                == s0.0[m].1.current_amount.0 - row_drawn(s0.0, s0.1, al.take(k), m) by {
                let y = s0.0[m].0;
                assert(drawn_on(s0.1, al.take(k), y) == drawn_on(s0.1, p, y) + draw(s0.1, a, y));
                if m != si && find_first(s0.0, y) == Some(m) {
                    assert(y != x);
                }
            }
            assert forall|m: int| 0 <= m < r2.0.len() implies #[trigger] storage_wf(r2.0[m].1) by {
                assert(storage_wf(r.0[m].1));
            }
            assert forall|m: int| 0 <= m < s0.1.len() implies (#[trigger] r2.1[m]).0 == s0.1[m].0 && r2.1[m].1.0
                == s0.1[m].1.0 by {
                assert(r.1[m].0 == s0.1[m].0 && r.1[m].1.0 == s0.1[m].1.0);
            }
        } else {
            assert(r2 == r);
            assert forall|m: int| 0 <= m < s0.0.len() implies #[trigger] r2.0[m].1.current_amount.0
                == s0.0[m].1.current_amount.0 - row_drawn(s0.0, s0.1, al.take(k), m) by {
                let y = s0.0[m].0;
                assert(drawn_on(s0.1, al.take(k), y) == drawn_on(s0.1, p, y) + draw(s0.1, a, y));
                if a.allocated_amount.0 > 0 && alloc_source(s0.1, a) == Some(y) && find_first(s0.0, y) == Some(m) {
                    lemma_find_same_keys(s0.0, r.0, y, 0);
                }
            }
        }
    }
}

/// The edge an allocation of demand `d` would draw on exists and has `d`'s source.
pub open spec fn demand_source_ok(es: EdgeTable, d: EdgeDemand) -> bool {
    alloc_source(es, EdgeAllocation { edge_entity: d.edge_entity, allocated_amount: ResourceAmount(0) }) == Some(d.source)
}

proof fn lemma_drawn_concat(es: EdgeTable, p: Seq<EdgeAllocation>, q: Seq<EdgeAllocation>, x: Entity)
    ensures
        drawn_on(es, p + q, x) == drawn_on(es, p, x) + drawn_on(es, q, x),
    decreases q.len(),
{
    if q.len() == 0 {
        assert(p + q =~= p);
    } else {
        lemma_drawn_concat(es, p, q.drop_last(), x);
        assert((p + q).drop_last() =~= p + q.drop_last());
        assert((p + q).last() == q.last());
    }
}

/// Allocations all drawn on source `src`, none negative: what they ask of `x` is their total
/// when `x` is `src`, and nothing otherwise.
proof fn lemma_drawn_single_source(es: EdgeTable, g: Seq<EdgeAllocation>, src: Entity, x: Entity)
    requires
        forall|i: int| 0 <= i < g.len() ==> #[trigger] alloc_source(es, g[i]) == Some(src) && g[i].allocated_amount.0 >= 0,
    ensures
        drawn_on(es, g, x) == if src == x { sum_allocated(g) } else { 0 },
    decreases g.len(),
{
    if g.len() > 0 {
        let d = g.drop_last();
        assert forall|i: int| 0 <= i < d.len() implies #[trigger] alloc_source(es, d[i]) == Some(src)
            && d[i].allocated_amount.0 >= 0 by {
            assert(d[i] == g[i]);
        }
        lemma_drawn_single_source(es, d, src, x);
        assert(g[g.len() - 1] == g.last());
    }
}

proof fn lemma_source_group_members(es: EdgeTable, ds: Seq<EdgeDemand>, src: Entity)
    requires
        all_positive(ds),
        forall|i: int| 0 <= i < ds.len() ==> #[trigger] demand_source_ok(es, ds[i]),
    ensures
        all_positive(source_group(ds, src)),
        forall|i: int|
            0 <= i < source_group(ds, src).len() ==> #[trigger] demand_source_ok(es, source_group(ds, src)[i])
                && source_group(ds, src)[i].source == src,
    decreases ds.len(),
{
    if ds.len() > 0 {
        let d = ds.drop_last();
        assert forall|i: int| 0 <= i < d.len() implies #[trigger] demand_source_ok(es, d[i]) by {
            assert(d[i] == ds[i]);
        }
        assert forall|i: int| 0 <= i < d.len() implies #[trigger] d[i].requested_amount.0 > 0 by {
            assert(d[i] == ds[i]);
        }
        lemma_source_group_members(es, d, src);
        assert(ds[ds.len() - 1] == ds.last());
        let g = source_group(ds, src);
        let g0 = source_group(d, src);
        assert forall|i: int| 0 <= i < g.len() implies #[trigger] g[i].requested_amount.0 > 0 by {
            if i < g0.len() {
                assert(g[i] == g0[i]);
            }
        }
        assert forall|i: int| 0 <= i < g.len() implies #[trigger] demand_source_ok(es, g[i]) && g[i].source == src by {
            if i < g0.len() {
                assert(g[i] == g0[i]);
            }
        }
    }
}

/// Contention never grants more on a source than its stock: what the allocations of the first
/// `k` demands ask of any source is at most the source's stock, and nothing for a source no
/// demand among them names first.
proof fn lemma_resolve_within_stock(st: Seq<(Entity, Storage)>, es: EdgeTable, ds: Seq<EdgeDemand>, k: int, x: Entity)
    requires
        0 <= k <= ds.len(),
        resolve_upto(st, ds, k) is Some,
        all_wf(st),
        all_positive(ds),
        forall|i: int| 0 <= i < ds.len() ==> #[trigger] demand_source_ok(es, ds[i]),
    ensures
        drawn_on(es, resolve_upto(st, ds, k).unwrap(), x) <= source_stock(st, x),
        (forall|i: int| 0 <= i < k ==> !(#[trigger] first_of_source(ds, i) && ds[i].source == x)) ==> drawn_on(
            es,
            resolve_upto(st, ds, k).unwrap(),
            x,
        ) == 0,
    decreases k,
{
    lemma_find_from(st, x, 0);
    if let Some(i) = find_first(st, x) {
        assert(storage_wf(st[i].1));
    }
    if k > 0 {
        lemma_resolve_within_stock(st, es, ds, k - 1, x);
        let acc = resolve_upto(st, ds, k - 1).unwrap();
        let src = ds[k - 1].source;
        if first_of_source(ds, k - 1) {
            let g = source_group(ds, src);
            let a = source_stock(st, src);
            let part = allocate_group(a, g);
            assert(resolve_upto(st, ds, k).unwrap() == acc + part);
            lemma_drawn_concat(es, acc, part, x);
            lemma_source_group_members(es, ds, src);
            lemma_find_from(st, src, 0);
            if let Some(j) = find_first(st, src) {
                assert(storage_wf(st[j].1));
            }
            assert(allocation_arith_ok(a, g));
            assert(g.take(g.len() as int) =~= g);
            assert(in_i64(sum_requested(g.take(g.len() as int))));
            law_rationing_never_overdraws(a, g);
            assert forall|i: int| 0 <= i < part.len() implies #[trigger] alloc_source(es, part[i]) == Some(src)
                && part[i].allocated_amount.0 >= 0 by {
                assert(part[i].edge_entity == g[i].edge_entity);
                assert(demand_source_ok(es, g[i]));
            }
            lemma_drawn_single_source(es, part, src, x);
            if src == x {
                assert forall|i: int| 0 <= i < k - 1 implies !(#[trigger] first_of_source(ds, i) && ds[i].source == x) by {
                    assert(ds[i].source != ds[k - 1].source);
                }
            }
        } else {
            assert(resolve_upto(st, ds, k).unwrap() == acc);
        }
    }
}

proof fn lemma_key_unique(es: EdgeTable, k: int)
    requires
        distinct_edge_keys(es),
        0 <= k < es.len(),
    ensures
        find_first(es, es[k].0) == Some(k),
{
    lemma_find_from(es, es[k].0, 0);
    let j = find_first(es, es[k].0).unwrap();
    if j < k {
        assert(es[j].0 != es[k].0);
    }
}

/// Every demand polled from a table with distinct edge keys draws on its own edge's source.
proof fn lemma_poll_demands_sourced(storages: Seq<(Entity, Storage)>, acc: Tally, es: EdgeTable, k: int)
    requires
        0 <= k <= es.len(),
        distinct_edge_keys(es),
        poll_edges(storages, (acc, Seq::empty()), es.take(k)) is Some,
    ensures
        forall|i: int|
            0 <= i < poll_edges(storages, (acc, Seq::empty()), es.take(k)).unwrap().1.len() ==> #[trigger] demand_source_ok(
                es,
                poll_edges(storages, (acc, Seq::empty()), es.take(k)).unwrap().1[i],
            ),
    decreases k,
{
    if k > 0 {
        assert(es.take(k).drop_last() =~= es.take(k - 1));
        assert(es.take(k).last() == es[k - 1]);
        lemma_poll_demands_sourced(storages, acc, es, k - 1);
        lemma_key_unique(es, k - 1);
        let prev = poll_edges(storages, (acc, Seq::empty()), es.take(k - 1)).unwrap();
        let cur = poll_edges(storages, (acc, Seq::empty()), es.take(k)).unwrap();
        assert(cur == poll_edge(storages, prev, es[k - 1]).unwrap());
        assert forall|i: int| 0 <= i < cur.1.len() implies #[trigger] demand_source_ok(es, cur.1[i]) by {
            if i < prev.1.len() {
                assert(cur.1[i] == prev.1[i]);
            }
        }
    } else {
        assert(es.take(0) =~= Seq::<(Entity, (FlowEdge, Seq<TransitPacket>))>::empty());
    }
}

/// Two edge tables with the same rows and edges (queues aside) are drawn on alike.
proof fn lemma_drawn_same_edges(a: EdgeTable, b: EdgeTable, al: Seq<EdgeAllocation>, x: Entity)
    requires
        a.len() == b.len(),
        forall|m: int| 0 <= m < a.len() ==> (#[trigger] b[m]).0 == a[m].0 && b[m].1.0 == a[m].1.0,
    ensures
        drawn_on(a, al, x) == drawn_on(b, al, x),
    decreases al.len(),
{
    if al.len() > 0 {
        lemma_drawn_same_edges(a, b, al.drop_last(), x);
        assert forall|m: int| 0 <= m < a.len() implies #[trigger] a[m].0 == b[m].0 by {
            assert(b[m].0 == a[m].0);
        }
        lemma_find_same_keys(a, b, al.last().edge_entity, 0);
        lemma_find_from(a, al.last().edge_entity, 0);
        if let Some(i) = find_first(a, al.last().edge_entity) {
            assert(b[i].1.0 == a[i].1.0);
        }
    }
}

/// A tick logs no error when the storages are well formed, the edge entities distinct and every
/// converter that runs is at full health with a balanced recipe: the log after the pipeline is
/// the log before it. Storages stay well formed and edge entities distinct.
pub proof fn law_tick_logs_no_error(s: NetState)
    requires
        all_wf(s.storages),
        distinct_edge_keys(s.edges),
        balanced_converters(s),
        pipeline_spec(s) is Some,
    ensures
        pipeline_spec(s).unwrap().errors == s.errors,
        all_wf(pipeline_spec(s).unwrap().storages),
        distinct_edge_keys(pipeline_spec(s).unwrap().edges),
        pipeline_spec(s).unwrap().converters == s.converters,
        pipeline_spec(s).unwrap().recipes == s.recipes,
{
    let s1 = advance_spec(s).unwrap();
    let s2 = poll_spec(s1).unwrap();
    let s3 = contention_spec(s2).unwrap();
    let acc = tally_edges(Seq::empty(), s1.edges).unwrap();
    assert(s1.edges.take(s1.edges.len() as int) =~= s1.edges);
    lemma_poll_demands_sourced(s1.storages, acc, s1.edges, s1.edges.len() as int);
    law_poll_respects_backpressure(s1, Entity(0));
    let ds = s2.demands;
    assert(all_positive(ds));
    let al = s3.allocations;
    assert forall|x: Entity| #[trigger] drawn_on(s.edges, al, x) <= source_stock(s.storages, x) by {
        lemma_resolve_within_stock(s.storages, s.edges, ds, ds.len() as int, x);
    }
    let s4 = deliver_spec(s3).unwrap();
    lemma_deliver_edges_grows(s3.storages, s3.tick, s3.edges);
    lemma_deliver_edges_len(s3.storages, s3.tick, s3.edges);
    assert forall|x: Entity| #[trigger] drawn_on(s4.edges, al, x) <= source_stock(s4.storages, x) by {
        lemma_drawn_same_edges(s.edges, s4.edges, al, x);
        assert(drawn_on(s.edges, al, x) <= source_stock(s.storages, x));
        assert forall|m: int| 0 <= m < s.storages.len() implies #[trigger] s.storages[m].0 == s4.storages[m].0 by {
            assert(s4.storages[m].0 == s.storages[m].0);
        }
        lemma_find_same_keys(s.storages, s4.storages, x, 0);
        lemma_find_from(s.storages, x, 0);
        if let Some(i) = find_first(s.storages, x) {
            assert(s.storages[i].1.current_amount.0 <= s4.storages[i].1.current_amount.0);
        }
    }
    assert(al.take(al.len() as int) =~= al);
    lemma_dispatch_clean((s4.storages, s4.edges, s4.errors), s4.tick, al, al.len() as int);
    let s5 = transit_spec(s3).unwrap();
    assert(s5.errors == s.errors);
    assert(distinct_edge_keys(s5.edges)) by {
        assert forall|i: int, j: int| 0 <= i < j < s5.edges.len() implies #[trigger] s5.edges[i].0 != #[trigger] s5.edges[j].0 by {
            assert(s5.edges[i].0 == s4.edges[i].0 && s4.edges[i].0 == s.edges[i].0);
            assert(s5.edges[j].0 == s4.edges[j].0 && s4.edges[j].0 == s.edges[j].0);
        }
    }
    let s6 = relocating_spec(s5);
    assert(balanced_rows(s6.converters, s6.recipes)) by {
        assert forall|i: int|
            0 <= i < s6.converters.len() && spec_operational(#[trigger] s6.converters[i].1) && s6.recipes.contains_key(
                s6.converters[i].1.recipe_id,
            ) implies s6.converters[i].1.health == MAX_HEALTH && balanced_recipe(
            s6.recipes[s6.converters[i].1.recipe_id],
        ) by {
            assert(s6.converters[i] == s.converters[i]);
        }
    }
    lemma_converters_all_mass((s6.storages, s6.errors), s6.bindings, s6.recipes, s6.converters);
}

/// Ticks run clean: starting from an empty log, with well-formed storages, distinct edge
/// entities and every converter that runs at full health with a balanced recipe, each of any
/// number of successive ticks logs no error, so every call of `tick_simulation_world` returns
/// `Ok`; the conditions keep holding from tick to tick.
pub proof fn law_ticks_run_clean(s: NetState, n: nat)
    requires
        all_wf(s.storages),
        distinct_edge_keys(s.edges),
        balanced_converters(s),
        s.errors.len() == 0,
        ticks(s, n) is Some,
    ensures
        forall|i: nat|
            i < n ==> (#[trigger] ticks(s, i)) is Some && pipeline_spec(ticks(s, i).unwrap()) is Some
                && pipeline_spec(ticks(s, i).unwrap()).unwrap().errors.len() == 0,
        all_wf(ticks(s, n).unwrap().storages),
        distinct_edge_keys(ticks(s, n).unwrap().edges),
        balanced_converters(ticks(s, n).unwrap()),
        ticks(s, n).unwrap().errors.len() == 0,
    decreases n,
{
    if n > 0 {
        let m = (n - 1) as nat;
        law_ticks_run_clean(s, m);
        let t = ticks(s, m).unwrap();
        law_tick_logs_no_error(t);
        let u = ticks(s, n).unwrap();
        let p = pipeline_spec(t).unwrap();
        assert(u == (NetState { errors: Seq::empty(), ..p }));
        assert forall|i: int|
            0 <= i < u.converters.len() && spec_operational(#[trigger] u.converters[i].1) && u.recipes.contains_key(
                u.converters[i].1.recipe_id,
            ) implies u.converters[i].1.health == MAX_HEALTH && balanced_recipe(
            u.recipes[u.converters[i].1.recipe_id],
        ) by {
            assert(u.converters[i] == t.converters[i]);
        }
        assert forall|i: nat| i < n implies (#[trigger] ticks(s, i)) is Some && pipeline_spec(ticks(s, i).unwrap()) is Some
            && pipeline_spec(ticks(s, i).unwrap()).unwrap().errors.len() == 0 by {
            if i == m {
                assert(p.errors.len() == 0);
            }
        }
    }
}

/// The edge table of a well-formed world has distinct edge entities, as the laws above ask.
pub proof fn lemma_wf_distinct_edges(w: &World)
    requires
        w.wf(),
    ensures
        distinct_edge_keys(w.net().edges),
{
}

} // verus!
