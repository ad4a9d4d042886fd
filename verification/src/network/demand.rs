//! Phase 1 (demand polling with backpressure) and phase 2 (contention resolution).

use vstd::prelude::*;
use super::allocation::{allocate_demand_group, allocate_group, allocation_arith_ok, allocation_fits};
use super::components::{spec_available, Entity, FlowEdge, Storage, TransitPacket};
use super::resources::{EdgeAllocation, EdgeDemand};
use super::types::{in_i64, clamp_i64, ResourceAmount};
use super::world::{
    edge_row_view, find_first, find_from, find_edge_row, find_row, lemma_find_from, lemma_find_same_keys, EdgeRow, NetState, World,
};

verus! {

/// Running per-destination totals: an association list from entity to amount.
pub type Tally = Seq<(Entity, i64)>;

/// The running total recorded for `d` (zero when absent).
pub open spec fn tally_get(acc: Tally, d: Entity) -> i64 {
    match find_first(acc, d) {
        Some(i) => acc[i].1,
        None => 0,
    }
}

/// Adds `x` to the running total of `d`; `None` when the total leaves `i64`.
pub open spec fn tally_add(acc: Tally, d: Entity, x: i64) -> Option<Tally> {
    match find_first(acc, d) {
        Some(i) => if in_i64(acc[i].1 + x) {
            Some(acc.update(i, (d, (acc[i].1 + x) as i64)))
        } else {
            None
        },
        None => Some(acc.push((d, x))),
    }
}

/// Adds the amounts of `ps` to their destinations' totals, in order.
pub open spec fn tally_packets(acc: Tally, ps: Seq<TransitPacket>) -> Option<Tally>
    decreases ps.len(),
{
    if ps.len() == 0 {
        Some(acc)
    } else {
        match tally_packets(acc, ps.drop_last()) {
            Some(a) => tally_add(a, ps.last().destination, ps.last().amount.0),
            None => None,
        }
    }
}

/// Adds the amounts of all packets in flight on `es`, edge by edge.
pub open spec fn tally_edges(acc: Tally, es: Seq<(Entity, (FlowEdge, Seq<TransitPacket>))>) -> Option<Tally>
    decreases es.len(),
{
    if es.len() == 0 {
        Some(acc)
    } else {
        match tally_edges(acc, es.drop_last()) {
            Some(a) => tally_packets(a, es.last().1.1),
            None => None,
        }
    }
}

/// Demand of one edge: the lesser of its throughput and the destination's free space
/// net of what is already in flight towards it (nothing when the destination is not a storage).
pub open spec fn edge_request(
    storages: Seq<(Entity, Storage)>,
    acc: Tally,
    edge: FlowEdge,
) -> Option<i64> {
    match find_first(storages, edge.destination) {
        None => None,
        Some(i) => {
            let space = clamp_i64(spec_available(storages[i].1) - tally_get(acc, edge.destination));
            Some(if edge.max_throughput.0 <= space { edge.max_throughput.0 } else { space })
        },
    }
}

/// One polling step: records a positive request and counts it as in flight.
pub open spec fn poll_edge(
    storages: Seq<(Entity, Storage)>,
    st: (Tally, Seq<EdgeDemand>),
    row: (Entity, (FlowEdge, Seq<TransitPacket>)),
) -> Option<(Tally, Seq<EdgeDemand>)> {
    let edge = row.1.0;
    match edge_request(storages, st.0, edge) {
        Some(r) => if r > 0 {
            match tally_add(st.0, edge.destination, r) {
                Some(a) => Some(
                    (
                        a,
                        st.1.push(
                            EdgeDemand {
                                edge_entity: row.0,
                                source: edge.source,
                                destination: edge.destination,
                                requested_amount: ResourceAmount(r),
                            },
                        ),
                    ),
                ),
                None => None,
            }
        } else {
            Some(st)
        },
        None => Some(st),
    }
}

/// Polling over all edges in order.
pub open spec fn poll_edges(
    storages: Seq<(Entity, Storage)>,
    st: (Tally, Seq<EdgeDemand>),
    es: Seq<(Entity, (FlowEdge, Seq<TransitPacket>))>,
) -> Option<(Tally, Seq<EdgeDemand>)>
    decreases es.len(),
{
    if es.len() == 0 {
        Some(st)
    } else {
        match poll_edges(storages, st, es.drop_last()) {
            Some(s) => poll_edge(storages, s, es.last()),
            None => None,
        }
    }
}

/// Phase 1: the demand buffer becomes the positive requests of all edges; `None` when a
/// running total would leave `i64`.
pub open spec fn poll_spec(s: NetState) -> Option<NetState> {
    match tally_edges(Seq::empty(), s.edges) {
        None => None,
        Some(acc) => match poll_edges(s.storages, (acc, Seq::empty()), s.edges) {
            None => None,
            Some(r) => Some(NetState { demands: r.1, ..s }),
        },
    }
}

proof fn lemma_tally_packets_prefix(acc: Tally, ps: Seq<TransitPacket>, k: int)
    requires
        0 <= k <= ps.len(),
        tally_packets(acc, ps) is Some,
    ensures
        tally_packets(acc, ps.take(k)) is Some,
    decreases ps.len(),
{
    if k == ps.len() {
        assert(ps.take(k) =~= ps);
    } else {
        lemma_tally_packets_prefix(acc, ps.drop_last(), k);
        assert(ps.drop_last().take(k) =~= ps.take(k));
    }
}

proof fn lemma_tally_edges_prefix(acc: Tally, es: Seq<(Entity, (FlowEdge, Seq<TransitPacket>))>, k: int)
    requires
        0 <= k <= es.len(),
        tally_edges(acc, es) is Some,
    ensures
        tally_edges(acc, es.take(k)) is Some,
    decreases es.len(),
{
    if k == es.len() {
        assert(es.take(k) =~= es);
    } else {
        lemma_tally_edges_prefix(acc, es.drop_last(), k);
        assert(es.drop_last().take(k) =~= es.take(k));
    }
}

proof fn lemma_poll_edges_prefix(
    storages: Seq<(Entity, Storage)>,
    st: (Tally, Seq<EdgeDemand>),
    es: Seq<(Entity, (FlowEdge, Seq<TransitPacket>))>,
    k: int,
)
    requires
        0 <= k <= es.len(),
        poll_edges(storages, st, es) is Some,
    ensures
        poll_edges(storages, st, es.take(k)) is Some,
    decreases es.len(),
{
    if k == es.len() {
        assert(es.take(k) =~= es);
    } else {
        lemma_poll_edges_prefix(storages, st, es.drop_last(), k);
        assert(es.drop_last().take(k) =~= es.take(k));
    }
}

fn tally_lookup(acc: &Vec<(Entity, i64)>, d: Entity) -> (r: i64)
    ensures
        r == tally_get(acc@, d),
{
    match find_row(acc, d) {
        Some(i) => acc[i].1,
        None => 0,
    }
}

fn tally_try_add(acc: &mut Vec<(Entity, i64)>, d: Entity, x: i64) -> (ok: bool)
    ensures
        ok == tally_add(old(acc)@, d, x) is Some,
        ok ==> final(acc)@ == tally_add(old(acc)@, d, x).unwrap(),
{
    match find_row(acc, d) {
        Some(i) => {
            let cur = acc[i].1;
            match cur.checked_add(x) {
                Some(v) => {
                    acc.set(i, (d, v));
                    true
                },
                None => false,
            }
        },
        None => {
            acc.push((d, x));
            true
        },
    }
}

/// Phase 1, checked: runs the demand polling and reports whether its running totals stayed
/// within `i64`; the world changes only when they did.
pub(crate) fn try_poll(w: &mut World) -> (ok: bool)
    ensures
        ok == poll_spec(old(w).net()) is Some,
        ok ==> final(w).net() == poll_spec(old(w).net()).unwrap(),
        !ok ==> final(w).net() == old(w).net(),
        final(w).same_outside_net(old(w)),
{
    let ghost s = w.net();
    let ghost es = s.edges;
    let n = w.edges.len();
    let mut acc: Vec<(Entity, i64)> = Vec::new();
    let mut i: usize = 0;
    while i < n
        invariant
            n == es.len(),
            es == w.edges@.map_values(|x: EdgeRow| edge_row_view(x)),
            s == w.net(),
            0 <= i <= n,
            tally_edges(Seq::empty(), es.take(i as int)) == Some(acc@),
        decreases n - i,
    {
        let ghost acc0 = acc@;
        let ghost ps = es[i as int].1.1;
        proof {
            assert(es.take(i + 1).drop_last() =~= es.take(i as int));
            assert(es.take(i + 1).last() == es[i as int]);
        }
        let m = w.edges[i].queue.packets.len();
        let mut j: usize = 0;
        while j < m
            invariant
                n == es.len(),
                es == w.edges@.map_values(|x: EdgeRow| edge_row_view(x)),
                s == w.net(),
                0 <= i < n,
                ps == es[i as int].1.1,
                m == ps.len(),
                tally_edges(Seq::empty(), es.take(i as int)) == Some(acc0),
                es.take(i + 1).drop_last() == es.take(i as int),
                es.take(i + 1).last() == es[i as int],
                0 <= j <= m,
                tally_packets(acc0, ps.take(j as int)) == Some(acc@),
            decreases m - j,
        {
            proof {
                assert(ps.take(j + 1).drop_last() =~= ps.take(j as int));
            }
            let p = w.edges[i].queue.packets[j];
            if !tally_try_add(&mut acc, p.destination, p.amount.0) {
                proof {
                    assert(tally_packets(acc0, ps.take(j + 1)) is None);
                    if tally_packets(acc0, ps) is Some {
                        lemma_tally_packets_prefix(acc0, ps, j + 1);
                    }
                    assert(tally_edges(Seq::empty(), es.take(i + 1)) is None);
                    if tally_edges(Seq::empty(), es) is Some {
                        lemma_tally_edges_prefix(Seq::empty(), es, i + 1);
                    }
                }
                return false;
            }
            j = j + 1;
        }
        assert(ps.take(m as int) =~= ps);
        i = i + 1;
    }
    assert(es.take(n as int) =~= es);
    let ghost acc_start = acc@;
    let mut demands: Vec<EdgeDemand> = Vec::new();
    let mut k: usize = 0;
    while k < n
        invariant
            n == es.len(),
            es == w.edges@.map_values(|x: EdgeRow| edge_row_view(x)),
            s == w.net(),
            tally_edges(Seq::empty(), es) == Some(acc_start),
            0 <= k <= n,
            poll_edges(s.storages, (acc_start, Seq::empty()), es.take(k as int)) == Some((acc@, demands@)),
        decreases n - k,
    {
        proof {
            assert(es.take(k + 1).drop_last() =~= es.take(k as int));
        }
        let row_entity = w.edges[k].entity;
        let edge = w.edges[k].edge;
        match find_row(&w.storages, edge.destination) {
            Some(si) => {
                let in_flight = tally_lookup(&acc, edge.destination);
                let space = w.storages[si].1.available_capacity().saturating_sub(ResourceAmount(in_flight));
                let requested = edge.max_throughput.min_amount(space);
                if requested.is_positive() {
                    if !tally_try_add(&mut acc, edge.destination, requested.0) {
                        proof {
                            assert(poll_edges(s.storages, (acc_start, Seq::empty()), es.take(k + 1)) is None);
                            if poll_edges(s.storages, (acc_start, Seq::empty()), es) is Some {
                                lemma_poll_edges_prefix(s.storages, (acc_start, Seq::empty()), es, k + 1);
                            }
                        }
                        return false;
                    }
                    demands.push(
                        EdgeDemand {
                            edge_entity: row_entity,
                            source: edge.source,
                            destination: edge.destination,
                            requested_amount: requested,
                        },
                    );
                }
            },
            None => {},
        }
        k = k + 1;
    }
    assert(es.take(n as int) =~= es);
    w.pending_demand.demands = demands;
    assert(w.net() =~= poll_spec(s).unwrap());
    true
}

/// Phase 1: gathers each edge's demand from its destination's free capacity, net of the
/// packets already in flight towards it (backpressure). Only positive requests are recorded.
pub fn poll_demand_system(w: &mut World)
    requires
        poll_spec(old(w).net()) is Some,
    ensures
        final(w).net() == poll_spec(old(w).net()).unwrap(),
        final(w).same_outside_net(old(w)),
{
    try_poll(w);
}

/// The demands of `ds` drawn on source `src`, in order.
pub open spec fn source_group(ds: Seq<EdgeDemand>, src: Entity) -> Seq<EdgeDemand>
    decreases ds.len(),
{
    if ds.len() == 0 {
        Seq::empty()
    } else {
        source_group(ds.drop_last(), src) + if ds.last().source == src {
            seq![ds.last()]
        } else {
            Seq::empty()
        }
    }
}

/// Demand `i` is the first one drawn on its source.
pub open spec fn first_of_source(ds: Seq<EdgeDemand>, i: int) -> bool {
    forall|j: int| 0 <= j < i ==> ds[j].source != ds[i].source
}

/// Stock held by the source storage (zero when the source is not a storage).
pub open spec fn source_stock(storages: Seq<(Entity, Storage)>, src: Entity) -> i64 {
    match find_first(storages, src) {
        Some(i) => storages[i].1.current_amount.0,
        None => 0,
    }
}

/// Allocations for the sources first met among the first `k` demands, source by source in
/// order of first appearance; `None` when a running total would leave `i64`.
pub open spec fn resolve_upto(storages: Seq<(Entity, Storage)>, ds: Seq<EdgeDemand>, k: int) -> Option<
    Seq<EdgeAllocation>,
>
    decreases k,
{
    if k <= 0 {
        Some(Seq::empty())
    } else {
        match resolve_upto(storages, ds, k - 1) {
            None => None,
            Some(acc) => if first_of_source(ds, k - 1) {
                let g = source_group(ds, ds[k - 1].source);
                let a = source_stock(storages, ds[k - 1].source);
                if allocation_arith_ok(a, g) {
                    Some(acc + allocate_group(a, g))
                } else {
                    None
                }
            } else {
                Some(acc)
            },
        }
    }
}

/// Phase 2: the allocation buffer becomes the rationing of every source's stock across
/// the demands drawn on it.
pub open spec fn contention_spec(s: NetState) -> Option<NetState> {
    match resolve_upto(s.storages, s.demands, s.demands.len() as int) {
        Some(a) => Some(NetState { allocations: a, ..s }),
        None => None,
    }
}

proof fn lemma_resolve_prefix(storages: Seq<(Entity, Storage)>, ds: Seq<EdgeDemand>, k: int, n: int)
    requires
        0 <= k <= n,
        resolve_upto(storages, ds, n) is Some,
    ensures
        resolve_upto(storages, ds, k) is Some,
    decreases n - k,
{
    if k < n {
        lemma_resolve_prefix(storages, ds, k, n - 1);
    }
}

fn is_first_of_source(ds: &Vec<EdgeDemand>, i: usize) -> (r: bool)
    requires
        i < ds@.len(),
    ensures
        r == first_of_source(ds@, i as int),
{
    let src = ds[i].source;
    let mut j: usize = 0;
    while j < i
        invariant
            i < ds@.len(),
            src == ds@[i as int].source,
            j <= i,
            forall|m: int| 0 <= m < j ==> ds@[m].source != src,
        decreases i - j,
    {
        if ds[j].source == src {
            return false;
        }
        j = j + 1;
    }
    true
}

fn collect_source_group(ds: &Vec<EdgeDemand>, src: Entity) -> (g: Vec<EdgeDemand>)
    ensures
        g@ == source_group(ds@, src),
{
    let mut g: Vec<EdgeDemand> = Vec::new();
    let mut j: usize = 0;
    while j < ds.len()
        invariant
            j <= ds@.len(),
            g@ == source_group(ds@.take(j as int), src),
        decreases ds.len() - j,
    {
        assert(ds@.take(j + 1).drop_last() =~= ds@.take(j as int));
        if ds[j].source == src {
            g.push(ds[j]);
        }
        proof {
            if ds@[j as int].source == src {
                assert(g@ =~= source_group(ds@.take(j + 1), src));
            } else {
                assert(g@ =~= source_group(ds@.take(j + 1), src));
            }
        }
        j = j + 1;
    }
    assert(ds@.take(ds@.len() as int) =~= ds@);
    g
}

/// Phase 2, checked: resolves contention and reports whether every running total stayed
/// within `i64`; the world changes only when they did.
pub(crate) fn try_contention(w: &mut World) -> (ok: bool)
    ensures
        ok == contention_spec(old(w).net()) is Some,
        ok ==> final(w).net() == contention_spec(old(w).net()).unwrap(),
        !ok ==> final(w).net() == old(w).net(),
        final(w).same_outside_net(old(w)),
{
    let ghost s = w.net();
    let ghost ds = s.demands;
    let n = w.pending_demand.demands.len();
    let mut allocations: Vec<EdgeAllocation> = Vec::new();
    let mut k: usize = 0;
    while k < n
        invariant
            n == ds.len(),
            s == w.net(),
            ds == w.pending_demand.demands@,
            0 <= k <= n,
            resolve_upto(s.storages, ds, k as int) == Some(allocations@),
        decreases n - k,
    {
        if is_first_of_source(&w.pending_demand.demands, k) {
            let src = w.pending_demand.demands[k].source;
            let group = collect_source_group(&w.pending_demand.demands, src);
            let available = match find_row(&w.storages, src) {
                Some(si) => w.storages[si].1.current_amount,
                None => ResourceAmount(0),
            };
            if !allocation_fits(available, &group) {
                proof {
                    assert(resolve_upto(s.storages, ds, k + 1) is None);
                    if resolve_upto(s.storages, ds, n as int) is Some {
                        lemma_resolve_prefix(s.storages, ds, k + 1, n as int);
                    }
                }
                return false;
            }
            allocate_demand_group(available, &group, &mut allocations);
        }
        k = k + 1;
    }
    w.flow_allocations.allocations = allocations;
    assert(w.net() =~= contention_spec(s).unwrap());
    true
}

/// Phase 2: rations each source's stock pro rata across the demands drawn on it, source
/// by source in order of first appearance.
pub fn resolve_contention_system(w: &mut World)
    requires
        contention_spec(old(w).net()) is Some,
    ensures
        final(w).net() == contention_spec(old(w).net()).unwrap(),
        final(w).same_outside_net(old(w)),
{
    try_contention(w);
}

/// Total amount requested towards destination `d` by a sequence of demands.
pub open spec fn requested_to(ds: Seq<EdgeDemand>, d: Entity) -> int
    decreases ds.len(),
{
    if ds.len() == 0 {
        0
    } else {
        requested_to(ds.drop_last(), d) + if ds.last().destination == d {
            ds.last().requested_amount.0 as int
        } else {
            0
        }
    }
}

proof fn lemma_tally_add_get(acc: Tally, d: Entity, x: i64, q: Entity)
    requires
        tally_add(acc, d, x) is Some,
    ensures
        tally_get(tally_add(acc, d, x).unwrap(), q) == if q == d { tally_get(acc, d) + x } else { tally_get(acc, q) as int },
{
    let a2 = tally_add(acc, d, x).unwrap();
    lemma_find_from(acc, d, 0);
    lemma_find_from(acc, q, 0);
    match find_first(acc, d) {
        Some(i) => {
            assert forall|m: int| 0 <= m < acc.len() implies #[trigger] acc[m].0 == a2[m].0 by {}
            lemma_find_same_keys(acc, a2, q, 0);
        },
        None => {
            lemma_find_from(a2, q, 0);
            if q != d {
                match find_first(acc, q) {
                    Some(k) => {
                        assert(find_from(a2, q, 0) == Some(k)) by {
                            lemma_find_prefix_push(acc, (d, x), q, 0);
                        }
                    },
                    None => {
                        lemma_find_prefix_push(acc, (d, x), q, 0);
                    },
                }
            } else {
                lemma_find_prefix_push(acc, (d, x), q, 0);
            }
        },
    }
}

proof fn lemma_find_prefix_push<T>(rows: Seq<(Entity, T)>, x: (Entity, T), e: Entity, j: int)
    requires
        0 <= j <= rows.len(),
    ensures
        find_from(rows.push(x), e, j) == match find_from(rows, e, j) {
            Some(k) => Some(k),
            None => if x.0 == e { Some(rows.len() as int) } else { None::<int> },
        },
    decreases rows.len() - j,
{
    if j < rows.len() {
        assert(rows.push(x)[j] == rows[j]);
        lemma_find_prefix_push(rows, x, e, j + 1);
    } else {
        assert(rows.push(x)[j] == x);
        assert(find_from(rows.push(x), e, j + 1) == None::<int>);
    }
}

/// The running tally for `d` while polling: what was in flight plus what has been requested.
proof fn lemma_poll_edges_tally(
    storages: Seq<(Entity, Storage)>,
    st: (Tally, Seq<EdgeDemand>),
    es: Seq<(Entity, (FlowEdge, Seq<TransitPacket>))>,
    d: Entity,
)
    requires
        poll_edges(storages, st, es) is Some,
    ensures
        ({
            let r = poll_edges(storages, st, es).unwrap();
            &&& tally_get(r.0, d) == tally_get(st.0, d) + requested_to(r.1, d) - requested_to(st.1, d)
            &&& find_first(storages, d) matches Some(i) ==> tally_get(r.0, d) <= if tally_get(st.0, d)
                >= spec_available(storages[i].1) {
                tally_get(st.0, d) as int
            } else {
                spec_available(storages[i].1) as int
            }
            &&& forall|k: int|
                st.1.len() <= k < r.1.len() ==> (#[trigger] r.1[k]).requested_amount.0 > 0
            &&& r.1.len() >= st.1.len()
            &&& r.1.take(st.1.len() as int) == st.1
        }),
    decreases es.len(),
{
    if es.len() > 0 {
        assert(poll_edges(storages, st, es.drop_last()) is Some);
        lemma_poll_edges_tally(storages, st, es.drop_last(), d);
        let s = poll_edges(storages, st, es.drop_last()).unwrap();
        let row = es.last();
        let edge = row.1.0;
        match edge_request(storages, s.0, edge) {
            Some(r) => {
                if r > 0 {
                    lemma_tally_add_get(s.0, edge.destination, r, d);
                    let out = poll_edges(storages, st, es).unwrap();
                    assert(out.1.drop_last() =~= s.1);
                    assert(out.1.take(st.1.len() as int) =~= s.1.take(st.1.len() as int));
                    lemma_find_from(storages, edge.destination, 0);
                }
            },
            None => {},
        }
    }
}

/// Backpressure: for each destination storage, what is in flight towards it plus what this
/// tick's polling requests for it never exceeds its free room (unless what was already in
/// flight exceeded it, in which case nothing more is requested); every request is positive
/// and at most its edge's throughput.
pub proof fn law_poll_respects_backpressure(s: NetState, d: Entity)
    requires
        poll_spec(s) is Some,
    ensures
        ({
            let inflight = tally_get(tally_edges(Seq::empty(), s.edges).unwrap(), d);
            let p = poll_spec(s).unwrap();
            &&& find_first(s.storages, d) matches Some(i) ==> inflight + requested_to(p.demands, d) <= if inflight
                >= spec_available(s.storages[i].1) {
                inflight as int
            } else {
                spec_available(s.storages[i].1) as int
            }
            &&& forall|k: int| 0 <= k < p.demands.len() ==> (#[trigger] p.demands[k]).requested_amount.0 > 0
        }),
{
    let acc = tally_edges(Seq::empty(), s.edges).unwrap();
    lemma_poll_edges_tally(s.storages, (acc, Seq::empty()), s.edges, d);
}

/// Total amount of the packets of `ps` bound for `d`.
pub open spec fn packets_to(ps: Seq<TransitPacket>, d: Entity) -> int
    decreases ps.len(),
{
    if ps.len() == 0 {
        0
    } else {
        packets_to(ps.drop_last(), d) + if ps.last().destination == d { ps.last().amount.0 as int } else { 0 }
    }
}

/// Total amount in flight towards `d` on all edges.
pub open spec fn in_flight_to(es: Seq<(Entity, (FlowEdge, Seq<TransitPacket>))>, d: Entity) -> int
    decreases es.len(),
{
    if es.len() == 0 {
        0
    } else {
        in_flight_to(es.drop_last(), d) + packets_to(es.last().1.1, d)
    }
}

proof fn lemma_tally_packets_get(acc: Tally, ps: Seq<TransitPacket>, d: Entity)
    requires
        tally_packets(acc, ps) is Some,
    ensures
        tally_get(tally_packets(acc, ps).unwrap(), d) == tally_get(acc, d) + packets_to(ps, d),
    decreases ps.len(),
{
    if ps.len() > 0 {
        lemma_tally_packets_get(acc, ps.drop_last(), d);
        let a = tally_packets(acc, ps.drop_last()).unwrap();
        lemma_tally_add_get(a, ps.last().destination, ps.last().amount.0, d);
    }
}

proof fn lemma_tally_edges_get(acc: Tally, es: Seq<(Entity, (FlowEdge, Seq<TransitPacket>))>, d: Entity)
    requires
        tally_edges(acc, es) is Some,
    ensures
        tally_get(tally_edges(acc, es).unwrap(), d) == tally_get(acc, d) + in_flight_to(es, d),
    decreases es.len(),
{
    if es.len() > 0 {
        lemma_tally_edges_get(acc, es.drop_last(), d);
        let a = tally_edges(acc, es.drop_last()).unwrap();
        lemma_tally_packets_get(a, es.last().1.1, d);
    }
}

/// Polling is maximal: edge `k`, when its destination is a storage, asks for the lesser of
/// its throughput and the destination's free room net of everything in flight towards it
/// and of what the edges before it have already requested for it; that request is
/// recorded, with the edge and its endpoints, exactly when it is positive. An edge whose
/// destination is not a storage asks for nothing.
pub proof fn law_poll_requests_maximal(s: NetState, k: int)
    requires
        poll_spec(s) is Some,
        0 <= k < s.edges.len(),
    ensures
        ({
            let acc = tally_edges(Seq::empty(), s.edges).unwrap();
            let before = poll_edges(s.storages, (acc, Seq::empty()), s.edges.take(k)).unwrap().1;
            let after = poll_edges(s.storages, (acc, Seq::empty()), s.edges.take(k + 1)).unwrap().1;
            let row = s.edges[k];
            let d = row.1.0.destination;
            &&& poll_edges(s.storages, (acc, Seq::empty()), s.edges.take(k + 1)) is Some
            &&& match find_first(s.storages, d) {
                None => after == before,
                Some(i) => {
                    let room = clamp_i64(
                        spec_available(s.storages[i].1) - (in_flight_to(s.edges, d) + requested_to(before, d)),
                    );
                    let r = if row.1.0.max_throughput.0 <= room { row.1.0.max_throughput.0 } else { room };
                    if r > 0 {
                        after == before.push(
                            EdgeDemand {
                                edge_entity: row.0,
                                source: row.1.0.source,
                                destination: d,
                                requested_amount: ResourceAmount(r),
                            },
                        )
                    } else {
                        after == before
                    }
                },
            }
        }),
        poll_spec(s).unwrap().demands == poll_edges(
            s.storages,
            (tally_edges(Seq::empty(), s.edges).unwrap(), Seq::empty()),
            s.edges.take(s.edges.len() as int),
        ).unwrap().1,
{
    let es = s.edges;
    let acc = tally_edges(Seq::empty(), es).unwrap();
    assert(es.take(es.len() as int) =~= es);
    lemma_poll_edges_prefix(s.storages, (acc, Seq::empty()), es, k + 1);
    lemma_poll_edges_prefix(s.storages, (acc, Seq::empty()), es, k);
    assert(es.take(k + 1).drop_last() =~= es.take(k));
    assert(es.take(k + 1).last() == es[k]);
    let st = poll_edges(s.storages, (acc, Seq::empty()), es.take(k)).unwrap();
    let d = es[k].1.0.destination;
    lemma_poll_edges_tally(s.storages, (acc, Seq::empty()), es.take(k), d);
    lemma_tally_edges_get(Seq::empty(), es, d);
    assert(tally_get(Seq::<(Entity, i64)>::empty(), d) == 0);
    assert(requested_to(Seq::<EdgeDemand>::empty(), d) == 0);
}

} // verus!
