//! Conservation laws of the tick pipeline: what a tick keeps of the total resource mass.

use vstd::prelude::*;
use super::components::{deposit_outcome, withdraw_outcome, spec_available, with_amount, spec_operational, Entity, FlowEdge, Storage, TransitPacket, MAX_HEALTH};
use super::conversion::{converters_all, converter_step, run_converter, withdraw_reqs, deposit_reqs, withdraw_req, deposit_req, first_input, first_output, input_ok, output_ok, inputs_available, outputs_room, input_covered, output_covered, yield_amount, converters_spec};
use super::resources::{EdgeAllocation, Recipe, RecipeIngredient};
use super::systems::{advance_spec, pipeline_spec, relocating_spec};
use super::demand::{contention_spec, poll_spec};
use super::transit::{EdgeTable, deliver_packet, deliver_queue, deliver_edges, deliver_spec, dispatch_all, dispatch_spec, transit_spec, transmitted};
use super::types::{clamp_i64, in_i64, ratio_ok, ratio_quotient, trunc_div, ResourceAmount};
use super::world::{find_first, find_from, lemma_find_from, lemma_find_same_keys, NetState};
use super::clean::all_wf;
use super::components::storage_wf;

verus! {

/// Total amount held by a table of storages.
pub open spec fn storage_mass(st: Seq<(Entity, Storage)>) -> int
    decreases st.len(),
{
    if st.len() == 0 {
        0
    } else {
        storage_mass(st.drop_last()) + st.last().1.current_amount.0
    }
}

/// Total amount carried by a sequence of packets.
pub open spec fn queue_mass(ps: Seq<TransitPacket>) -> int
    decreases ps.len(),
{
    if ps.len() == 0 {
        0
    } else {
        queue_mass(ps.drop_last()) + ps.last().amount.0
    }
}

/// Total amount in flight on all edges.
pub open spec fn edges_mass(es: EdgeTable) -> int
    decreases es.len(),
{
    if es.len() == 0 {
        0
    } else {
        edges_mass(es.drop_last()) + queue_mass(es.last().1.1)
    }
}

/// Total resource mass of the network: stored plus in flight.
pub open spec fn total_mass(s: NetState) -> int {
    storage_mass(s.storages) + edges_mass(s.edges)
}

/// Every edge transmits at full efficiency (1,000,000 millionths).
pub open spec fn lossless_edges(es: EdgeTable) -> bool {
    forall|i: int| 0 <= i < es.len() ==> (#[trigger] es[i]).1.0.efficiency_millionths == 1_000_000
}

/// Every packet in flight carries a non-negative amount.
pub open spec fn nonneg_packets(es: EdgeTable) -> bool {
    forall|i: int, j: int|
        0 <= i < es.len() && 0 <= j < es[i].1.1.len() ==> (#[trigger] es[i].1.1[j]).amount.0 >= 0
}

/// Total amount of a list of ingredients.
pub open spec fn sum_amounts(reqs: Seq<RecipeIngredient>) -> int
    decreases reqs.len(),
{
    if reqs.len() == 0 {
        0
    } else {
        sum_amounts(reqs.drop_last()) + reqs.last().amount.0
    }
}

/// No two ingredients of the list name the same element.
pub open spec fn distinct_elements(reqs: Seq<RecipeIngredient>) -> bool {
    forall|i: int, j: int| 0 <= i < j < reqs.len() ==> #[trigger] reqs[i].element_id != #[trigger] reqs[j].element_id
}

/// Every ingredient of the list has a non-negative amount.
pub open spec fn nonneg_amounts(reqs: Seq<RecipeIngredient>) -> bool {
    forall|i: int| 0 <= i < reqs.len() ==> #[trigger] reqs[i].amount.0 >= 0
}

/// Some ingredient of the list names element `el`.
pub open spec fn mentions(reqs: Seq<RecipeIngredient>, el: u32) -> bool {
    exists|k: int| 0 <= k < reqs.len() && #[trigger] reqs[k].element_id == el
}

/// A recipe whose inputs total its outputs, with non-negative amounts and no element named
/// twice among its inputs or twice among its outputs.
pub open spec fn balanced_recipe(r: Recipe) -> bool {
    &&& sum_amounts(r.inputs@) == sum_amounts(r.outputs@)
    &&& nonneg_amounts(r.inputs@)
    &&& nonneg_amounts(r.outputs@)
    &&& distinct_elements(r.inputs@)
    &&& distinct_elements(r.outputs@)
}

/// Every converter that runs is at full health with a balanced recipe.
pub open spec fn balanced_converters(s: NetState) -> bool {
    forall|i: int|
        0 <= i < s.converters.len() && spec_operational(#[trigger] s.converters[i].1) && s.recipes.contains_key(
            s.converters[i].1.recipe_id,
        ) ==> s.converters[i].1.health == MAX_HEALTH && balanced_recipe(s.recipes[s.converters[i].1.recipe_id])
}

proof fn lemma_storage_mass_update(st: Seq<(Entity, Storage)>, i: int, row: (Entity, Storage))
    requires
        0 <= i < st.len(),
    ensures
        storage_mass(st.update(i, row)) == storage_mass(st) - st[i].1.current_amount.0 + row.1.current_amount.0,
    decreases st.len(),
{
    if i < st.len() - 1 {
        assert(st.update(i, row).drop_last() =~= st.drop_last().update(i, row));
        lemma_storage_mass_update(st.drop_last(), i, row);
    } else {
        assert(st.update(i, row).drop_last() =~= st.drop_last());
    }
}

proof fn lemma_queue_mass_push(ps: Seq<TransitPacket>, p: TransitPacket)
    ensures
        queue_mass(ps.push(p)) == queue_mass(ps) + p.amount.0,
{
    assert(ps.push(p).drop_last() =~= ps);
}

proof fn lemma_edges_mass_update(es: EdgeTable, i: int, row: (Entity, (FlowEdge, Seq<TransitPacket>)))
    requires
        0 <= i < es.len(),
    ensures
        edges_mass(es.update(i, row)) == edges_mass(es) - queue_mass(es[i].1.1) + queue_mass(row.1.1),
    decreases es.len(),
{
    if i < es.len() - 1 {
        assert(es.update(i, row).drop_last() =~= es.drop_last().update(i, row));
        lemma_edges_mass_update(es.drop_last(), i, row);
    } else {
        assert(es.update(i, row).drop_last() =~= es.drop_last());
    }
}

/// Depositing a non-negative amount no larger than the free room always succeeds.
proof fn lemma_deposit_fits(s: Storage, amount: i64)
    requires
        0 <= amount <= spec_available(s),
    ensures
        deposit_outcome(s, amount) == Ok::<Storage, super::super::error::DomainErrorView>(
            with_amount(s, s.current_amount.0 + amount),
        ),
{
}

proof fn lemma_deliver_packet_mass(st: Seq<(Entity, Storage)>, tick: u64, p: TransitPacket)
    requires
        p.amount.0 >= 0,
        deliver_packet(st, tick, p) is Some,
    ensures
        ({
            let r = deliver_packet(st, tick, p).unwrap();
            &&& storage_mass(r.0) + queue_mass(r.1) == storage_mass(st) + p.amount.0
            &&& forall|j: int| 0 <= j < r.1.len() ==> (#[trigger] r.1[j]).amount.0 >= 0
        }),
{
    let r = deliver_packet(st, tick, p).unwrap();
    lemma_queue_mass_push(Seq::empty(), p);
    assert(seq![p] =~= Seq::<TransitPacket>::empty().push(p));
    if p.arrival_tick <= tick {
        match find_first(st, p.destination) {
            Some(i) => {
                lemma_find_from(st, p.destination, 0);
                let s = st[i].1;
                let avail = spec_available(s);
                let to_dep = if avail <= p.amount.0 { avail } else { p.amount.0 };
                if to_dep > 0 {
                    lemma_deposit_fits(s, to_dep);
                    let s2 = with_amount(s, s.current_amount.0 + to_dep);
                    lemma_storage_mass_update(st, i, (st[i].0, s2));
                    let rem = clamp_i64(p.amount.0 - to_dep);
                    assert(rem == p.amount.0 - to_dep);
                    if rem > 0 {
                        let q = TransitPacket { amount: ResourceAmount(rem), arrival_tick: (tick + 1) as u64, ..p };
                        lemma_queue_mass_push(Seq::empty(), q);
                        assert(seq![q] =~= Seq::<TransitPacket>::empty().push(q));
                    }
                } else {
                    let q = TransitPacket { amount: p.amount, arrival_tick: (tick + 1) as u64, ..p };
                    lemma_queue_mass_push(Seq::empty(), q);
                    assert(seq![q] =~= Seq::<TransitPacket>::empty().push(q));
                }
            },
            None => {},
        }
    }
}

proof fn lemma_queue_mass_concat(a: Seq<TransitPacket>, b: Seq<TransitPacket>)
    ensures
        queue_mass(a + b) == queue_mass(a) + queue_mass(b),
    decreases b.len(),
{
    if b.len() == 0 {
        assert(a + b =~= a);
    } else {
        lemma_queue_mass_concat(a, b.drop_last());
        assert((a + b).drop_last() =~= a + b.drop_last());
    }
}

proof fn lemma_deliver_queue_mass(st: Seq<(Entity, Storage)>, tick: u64, ps: Seq<TransitPacket>)
    requires
        forall|j: int| 0 <= j < ps.len() ==> (#[trigger] ps[j]).amount.0 >= 0,
        deliver_queue(st, tick, ps) is Some,
    ensures
        ({
            let r = deliver_queue(st, tick, ps).unwrap();
            &&& storage_mass(r.0) + queue_mass(r.1) == storage_mass(st) + queue_mass(ps)
            &&& forall|j: int| 0 <= j < r.1.len() ==> (#[trigger] r.1[j]).amount.0 >= 0
        }),
    decreases ps.len(),
{
    if ps.len() > 0 {
        let prev = ps.drop_last();
        assert(deliver_queue(st, tick, prev) is Some);
        lemma_deliver_queue_mass(st, tick, prev);
        let r = deliver_queue(st, tick, prev).unwrap();
        assert(ps.last() == ps[ps.len() - 1]);
        lemma_deliver_packet_mass(r.0, tick, ps.last());
        let r2 = deliver_packet(r.0, tick, ps.last()).unwrap();
        lemma_queue_mass_concat(r.1, r2.1);
        let out = deliver_queue(st, tick, ps).unwrap();
        assert(out.1 == r.1 + r2.1);
        assert forall|j: int| 0 <= j < out.1.len() implies (#[trigger] out.1[j]).amount.0 >= 0 by {
            if j < r.1.len() {
                assert(out.1[j] == r.1[j]);
            } else {
                assert(out.1[j] == r2.1[j - r.1.len()]);
            }
        }
    }
}

proof fn lemma_deliver_edges_mass(st: Seq<(Entity, Storage)>, tick: u64, es: EdgeTable)
    requires
        nonneg_packets(es),
        deliver_edges(st, tick, es) is Some,
    ensures
        ({
            let r = deliver_edges(st, tick, es).unwrap();
            &&& storage_mass(r.0) + edges_mass(r.1) == storage_mass(st) + edges_mass(es)
            &&& nonneg_packets(r.1)
            &&& r.1.len() == es.len()
            &&& forall|i: int| 0 <= i < es.len() ==> (#[trigger] r.1[i]).0 == es[i].0 && r.1[i].1.0 == es[i].1.0
        }),
    decreases es.len(),
{
    if es.len() > 0 {
        let prev = es.drop_last();
        assert(nonneg_packets(prev)) by {
            assert forall|i: int, j: int| 0 <= i < prev.len() && 0 <= j < prev[i].1.1.len() implies (
            #[trigger] prev[i].1.1[j]).amount.0 >= 0 by {
                assert(prev[i] == es[i]);
            }
        }
        assert(deliver_edges(st, tick, prev) is Some);
        lemma_deliver_edges_mass(st, tick, prev);
        let r = deliver_edges(st, tick, prev).unwrap();
        let last = es.last();
        assert forall|j: int| 0 <= j < last.1.1.len() implies (#[trigger] last.1.1[j]).amount.0 >= 0 by {
            assert(es[es.len() - 1] == last);
        }
        lemma_deliver_queue_mass(r.0, tick, last.1.1);
        let q = deliver_queue(r.0, tick, last.1.1).unwrap();
        let out = deliver_edges(st, tick, es).unwrap();
        assert(out.1 == r.1.push((last.0, (last.1.0, q.1))));
        assert(out.1.drop_last() =~= r.1);
        assert forall|i: int, j: int| 0 <= i < out.1.len() && 0 <= j < out.1[i].1.1.len() implies (
        #[trigger] out.1[i].1.1[j]).amount.0 >= 0 by {
            if i < r.1.len() {
                assert(out.1[i] == r.1[i]);
            }
        }
    }
}

proof fn lemma_transmit_lossless(amount: i64)
    ensures
        transmitted(amount, 1_000_000) == amount,
{
    let p = amount * 1_000_000;
    assert(p == amount * 1_000_000);
    if amount > 0 {
        vstd::arithmetic::div_mod::lemma_div_by_multiple(amount as int, 1_000_000);
    } else if amount < 0 {
        vstd::arithmetic::div_mod::lemma_div_by_multiple(-amount, 1_000_000);
        assert((-amount) * 1_000_000 == -(amount * 1_000_000)) by (nonlinear_arith);
    }
    assert(ratio_quotient(amount, 1_000_000, 1_000_000) == amount);
}

proof fn lemma_dispatch_all_mass(
    s: (Seq<(Entity, Storage)>, EdgeTable, Seq<super::super::error::DomainErrorView>),
    tick: u64,
    allocs: Seq<EdgeAllocation>,
)
    requires
        nonneg_packets(s.1),
        lossless_edges(s.1),
        dispatch_all(s, tick, allocs) is Some,
    ensures
        ({
            let r = dispatch_all(s, tick, allocs).unwrap();
            &&& storage_mass(r.0) + edges_mass(r.1) == storage_mass(s.0) + edges_mass(s.1)
            &&& nonneg_packets(r.1)
            &&& lossless_edges(r.1)
            &&& r.1.len() == s.1.len()
            &&& forall|i: int| 0 <= i < s.1.len() ==> (#[trigger] r.1[i]).0 == s.1[i].0 && r.1[i].1.0 == s.1[i].1.0
        }),
    decreases allocs.len(),
{
    if allocs.len() > 0 {
        assert(dispatch_all(s, tick, allocs.drop_last()) is Some);
        lemma_dispatch_all_mass(s, tick, allocs.drop_last());
        let r = dispatch_all(s, tick, allocs.drop_last()).unwrap();
        let a = allocs.last();
        if a.allocated_amount.0 > 0 {
            match find_first(r.1, a.edge_entity) {
                Some(ei) => {
                    lemma_find_from(r.1, a.edge_entity, 0);
                    let edge = r.1[ei].1.0;
                    match find_first(r.0, edge.source) {
                        Some(si) => {
                            lemma_find_from(r.0, edge.source, 0);
                            match withdraw_outcome(r.0[si].1, a.allocated_amount.0) {
                                Ok(s2) => {
                                    assert(edge.efficiency_millionths == 1_000_000);
                                    lemma_transmit_lossless(a.allocated_amount.0);
                                    let p = TransitPacket {
                                        element_id: s2.element_id,
                                        amount: ResourceAmount(transmitted(a.allocated_amount.0, edge.efficiency_millionths)),
                                        arrival_tick: (tick + edge.latency) as u64,
                                        destination: edge.destination,
                                    };
                                    let row = (r.1[ei].0, (edge, r.1[ei].1.1.push(p)));
                                    lemma_storage_mass_update(r.0, si, (r.0[si].0, s2));
                                    lemma_edges_mass_update(r.1, ei, row);
                                    lemma_queue_mass_push(r.1[ei].1.1, p);
                                    let out = dispatch_all(s, tick, allocs).unwrap();
                                    assert(out.1 == r.1.update(ei, row));
                                    assert forall|i: int, j: int|
                                        0 <= i < out.1.len() && 0 <= j < out.1[i].1.1.len() implies (
                                    #[trigger] out.1[i].1.1[j]).amount.0 >= 0 by {
                                        if i != ei {
                                            assert(out.1[i] == r.1[i]);
                                        } else if j < r.1[ei].1.1.len() {
                                            assert(out.1[i].1.1[j] == r.1[ei].1.1[j]);
                                        }
                                    }
                                    assert forall|i: int| 0 <= i < out.1.len() implies (
                                    #[trigger] out.1[i]).1.0.efficiency_millionths == 1_000_000 by {
                                        if i != ei {
                                            assert(out.1[i] == r.1[i]);
                                        }
                                    }
                                },
                                Err(_) => {},
                            }
                        },
                        None => {},
                    }
                },
                None => {},
            }
        }
    }
}

/// Phase 3 conserves mass: on lossless edges carrying no negative packet, what arrives at a
/// destination leaves its packet and what is dispatched leaves its source, so stored plus
/// in-flight mass is unchanged; no packet becomes negative and edges stay lossless.
pub proof fn law_transit_conserves_mass(s: NetState)
    requires
        lossless_edges(s.edges),
        nonneg_packets(s.edges),
        transit_spec(s) is Some,
    ensures
        total_mass(transit_spec(s).unwrap()) == total_mass(s),
        lossless_edges(transit_spec(s).unwrap().edges),
        nonneg_packets(transit_spec(s).unwrap().edges),
{
    lemma_deliver_edges_mass(s.storages, s.tick, s.edges);
    let d = deliver_spec(s).unwrap();
    assert(lossless_edges(d.edges)) by {
        assert forall|i: int| 0 <= i < d.edges.len() implies (#[trigger] d.edges[i]).1.0.efficiency_millionths
            == 1_000_000 by {
            assert(d.edges[i].1.0 == s.edges[i].1.0);
        }
    }
    lemma_dispatch_all_mass((d.storages, d.edges, d.errors), d.tick, d.allocations);
}

proof fn lemma_first_input_found(st: Seq<(Entity, Storage)>, req: super::resources::RecipeIngredient, bs: Seq<Entity>, k: int, j: int)
    requires
        0 <= k <= j < bs.len(),
        input_ok(st, req, bs[j]),
    ensures
        first_input(st, req, bs, k) is Some,
        k <= first_input(st, req, bs, k).unwrap() < bs.len(),
        input_ok(st, req, bs[first_input(st, req, bs, k).unwrap()]),
    decreases j - k,
{
    if !input_ok(st, req, bs[k]) {
        lemma_first_input_found(st, req, bs, k + 1, j);
    }
}

proof fn lemma_first_output_found(st: Seq<(Entity, Storage)>, element_id: u32, amount: i64, bs: Seq<Entity>, k: int, j: int)
    requires
        0 <= k <= j < bs.len(),
        output_ok(st, element_id, amount, bs[j]),
    ensures
        first_output(st, element_id, amount, bs, k) is Some,
        k <= first_output(st, element_id, amount, bs, k).unwrap() < bs.len(),
        output_ok(st, element_id, amount, bs[first_output(st, element_id, amount, bs, k).unwrap()]),
    decreases j - k,
{
    if !output_ok(st, element_id, amount, bs[k]) {
        lemma_first_output_found(st, element_id, amount, bs, k + 1, j);
    }
}

proof fn lemma_yield_full_health(amount: i64)
    ensures
        yield_amount(amount, MAX_HEALTH) == amount,
{
    if amount > 0 {
        vstd::arithmetic::div_mod::lemma_div_by_multiple(amount as int, 10_000);
    } else if amount < 0 {
        vstd::arithmetic::div_mod::lemma_div_by_multiple(-amount, 10_000);
        assert((-amount) * 10_000 == -(amount * 10_000)) by (nonlinear_arith);
    }
    assert(ratio_quotient(amount, 10_000, 10_000) == amount);
}

/// Two storage tables with the same rows in the same places: same entities, elements and
/// capacities.
pub open spec fn same_rows(a: Seq<(Entity, Storage)>, b: Seq<(Entity, Storage)>) -> bool {
    &&& a.len() == b.len()
    &&& forall|m: int|
        0 <= m < a.len() ==> #[trigger] b[m].0 == a[m].0 && b[m].1.element_id == a[m].1.element_id
            && b[m].1.capacity == a[m].1.capacity
}

proof fn lemma_same_rows_find(a: Seq<(Entity, Storage)>, b: Seq<(Entity, Storage)>, e: Entity)
    requires
        same_rows(a, b),
    ensures
        find_first(a, e) == find_first(b, e),
{
    assert forall|m: int| 0 <= m < a.len() implies #[trigger] a[m].0 == b[m].0 by {}
    lemma_find_same_keys(a, b, e, 0);
}

proof fn lemma_prefix_props(reqs: Seq<RecipeIngredient>)
    requires
        reqs.len() > 0,
        nonneg_amounts(reqs),
        distinct_elements(reqs),
    ensures
        nonneg_amounts(reqs.drop_last()),
        distinct_elements(reqs.drop_last()),
        !mentions(reqs.drop_last(), reqs.last().element_id),
        mentions(reqs, reqs.last().element_id),
        reqs.last().amount.0 >= 0,
        forall|el: u32| mentions(reqs.drop_last(), el) ==> mentions(reqs, el),
{
    let d = reqs.drop_last();
    let n = reqs.len() - 1;
    assert(reqs[n] == reqs.last());
    assert forall|i: int| 0 <= i < d.len() implies #[trigger] d[i].amount.0 >= 0 by {
        assert(d[i] == reqs[i]);
    }
    assert forall|i: int, j: int| 0 <= i < j < d.len() implies #[trigger] d[i].element_id != #[trigger] d[j].element_id by {
        assert(d[i] == reqs[i] && d[j] == reqs[j]);
    }
    if mentions(d, reqs.last().element_id) {
        let k = choose|k: int| 0 <= k < d.len() && #[trigger] d[k].element_id == reqs.last().element_id;
        assert(d[k] == reqs[k]);
    }
    assert forall|el: u32| mentions(d, el) implies mentions(reqs, el) by {
        let k = choose|k: int| 0 <= k < d.len() && #[trigger] d[k].element_id == el;
        assert(d[k] == reqs[k]);
    }
}

/// Withdrawing ingredients of distinct elements, each held somewhere, logs no error and
/// removes exactly their total; rows of other elements are untouched and no amount grows.
proof fn lemma_withdraw_reqs_clean(
    s: (Seq<(Entity, Storage)>, Seq<super::super::error::DomainErrorView>),
    reqs: Seq<RecipeIngredient>,
    bs: Seq<Entity>,
)
    requires
        nonneg_amounts(reqs),
        distinct_elements(reqs),
        forall|k: int| 0 <= k < reqs.len() ==> #[trigger] input_covered(s.0, reqs[k], bs),
    ensures
        withdraw_reqs(s, reqs, bs).1 == s.1,
        storage_mass(withdraw_reqs(s, reqs, bs).0) == storage_mass(s.0) - sum_amounts(reqs),
        same_rows(s.0, withdraw_reqs(s, reqs, bs).0),
        forall|m: int|
            0 <= m < s.0.len() ==> #[trigger] withdraw_reqs(s, reqs, bs).0[m].1.current_amount.0
                <= s.0[m].1.current_amount.0,
        forall|m: int|
            0 <= m < s.0.len() && !mentions(reqs, s.0[m].1.element_id) ==> #[trigger] withdraw_reqs(s, reqs, bs).0[m]
                == s.0[m],
        all_wf(s.0) ==> all_wf(withdraw_reqs(s, reqs, bs).0),
    decreases reqs.len(),
{
    if reqs.len() > 0 {
        let d = reqs.drop_last();
        let req = reqs.last();
        lemma_prefix_props(reqs);
        assert forall|k: int| 0 <= k < d.len() implies #[trigger] input_covered(s.0, d[k], bs) by {
            assert(d[k] == reqs[k]);
        }
        lemma_withdraw_reqs_clean(s, d, bs);
        let s1 = withdraw_reqs(s, d, bs);
        assert(reqs[reqs.len() - 1] == req);
        assert(input_covered(s.0, reqs[reqs.len() - 1], bs));
        let j = choose|j: int| 0 <= j < bs.len() && #[trigger] input_ok(s.0, req, bs[j]);
        lemma_find_from(s.0, bs[j], 0);
        lemma_same_rows_find(s.0, s1.0, bs[j]);
        let i = find_first(s.0, bs[j]).unwrap();
        assert(s1.0[i] == s.0[i]);
        assert(input_ok(s1.0, req, bs[j]));
        lemma_first_input_found(s1.0, req, bs, 0, j);
        let j0 = first_input(s1.0, req, bs, 0).unwrap();
        lemma_find_from(s1.0, bs[j0], 0);
        let i0 = find_first(s1.0, bs[j0]).unwrap();
        let r2 = with_amount(s1.0[i0].1, s1.0[i0].1.current_amount.0 - req.amount.0);
        assert(withdraw_outcome(s1.0[i0].1, req.amount.0) == Ok::<Storage, super::super::error::DomainErrorView>(r2));
        assert(withdraw_reqs(s, reqs, bs) == withdraw_req(s1, req, bs));
        lemma_storage_mass_update(s1.0, i0, (s1.0[i0].0, r2));
        let w = withdraw_reqs(s, reqs, bs);
        assert(w.0 == s1.0.update(i0, (s1.0[i0].0, r2)));
        assert forall|m: int|
            0 <= m < s.0.len() && !mentions(reqs, s.0[m].1.element_id) implies #[trigger] w.0[m] == s.0[m] by {
            if m == i0 {
                assert(s1.0[i0].1.element_id == req.element_id);
            }
        }
        if all_wf(s.0) {
            assert(storage_wf(s1.0[i0].1));
            assert forall|m: int| 0 <= m < w.0.len() implies #[trigger] storage_wf(w.0[m].1) by {
                assert(storage_wf(s1.0[m].1));
            }
        }
    }
}

/// Depositing products of distinct elements, each with room somewhere, at full health logs
/// no error and adds exactly their total; rows of other elements are untouched.
proof fn lemma_deposit_reqs_clean(
    s: (Seq<(Entity, Storage)>, Seq<super::super::error::DomainErrorView>),
    reqs: Seq<RecipeIngredient>,
    bs: Seq<Entity>,
)
    requires
        nonneg_amounts(reqs),
        distinct_elements(reqs),
        forall|k: int| 0 <= k < reqs.len() ==> #[trigger] output_covered(s.0, reqs[k], bs),
    ensures
        deposit_reqs(s, reqs, bs, MAX_HEALTH).1 == s.1,
        storage_mass(deposit_reqs(s, reqs, bs, MAX_HEALTH).0) == storage_mass(s.0) + sum_amounts(reqs),
        same_rows(s.0, deposit_reqs(s, reqs, bs, MAX_HEALTH).0),
        forall|m: int|
            0 <= m < s.0.len() && !mentions(reqs, s.0[m].1.element_id) ==> #[trigger] deposit_reqs(
                s,
                reqs,
                bs,
                MAX_HEALTH,
            ).0[m] == s.0[m],
        all_wf(s.0) ==> all_wf(deposit_reqs(s, reqs, bs, MAX_HEALTH).0),
    decreases reqs.len(),
{
    if reqs.len() > 0 {
        let d = reqs.drop_last();
        let req = reqs.last();
        lemma_prefix_props(reqs);
        assert forall|k: int| 0 <= k < d.len() implies #[trigger] output_covered(s.0, d[k], bs) by {
            assert(d[k] == reqs[k]);
        }
        lemma_deposit_reqs_clean(s, d, bs);
        let s1 = deposit_reqs(s, d, bs, MAX_HEALTH);
        assert(reqs[reqs.len() - 1] == req);
        assert(output_covered(s.0, reqs[reqs.len() - 1], bs));
        let j = choose|j: int| 0 <= j < bs.len() && #[trigger] output_ok(s.0, req.element_id, req.amount.0, bs[j]);
        lemma_find_from(s.0, bs[j], 0);
        lemma_same_rows_find(s.0, s1.0, bs[j]);
        let i = find_first(s.0, bs[j]).unwrap();
        assert(s1.0[i] == s.0[i]);
        lemma_yield_full_health(req.amount.0);
        let y = yield_amount(req.amount.0, MAX_HEALTH);
        assert(output_ok(s1.0, req.element_id, y, bs[j]));
        lemma_first_output_found(s1.0, req.element_id, y, bs, 0, j);
        let j0 = first_output(s1.0, req.element_id, y, bs, 0).unwrap();
        lemma_find_from(s1.0, bs[j0], 0);
        let i0 = find_first(s1.0, bs[j0]).unwrap();
        lemma_deposit_fits(s1.0[i0].1, y);
        let r2 = with_amount(s1.0[i0].1, s1.0[i0].1.current_amount.0 + y);
        assert(deposit_reqs(s, reqs, bs, MAX_HEALTH) == deposit_req(s1, req, bs, MAX_HEALTH));
        lemma_storage_mass_update(s1.0, i0, (s1.0[i0].0, r2));
        let w = deposit_reqs(s, reqs, bs, MAX_HEALTH);
        assert(w.0 == s1.0.update(i0, (s1.0[i0].0, r2)));
        assert forall|m: int|
            0 <= m < s.0.len() && !mentions(reqs, s.0[m].1.element_id) implies #[trigger] w.0[m] == s.0[m] by {
            if m == i0 {
                assert(s1.0[i0].1.element_id == req.element_id);
            }
        }
        if all_wf(s.0) {
            assert(storage_wf(s1.0[i0].1));
            assert forall|m: int| 0 <= m < w.0.len() implies #[trigger] storage_wf(w.0[m].1) by {
                assert(storage_wf(s1.0[m].1));
            }
        }
    }
}

/// A balanced recipe run at full health leaves the stored mass unchanged and logs no error.
proof fn lemma_run_converter_mass(
    s: (Seq<(Entity, Storage)>, Seq<super::super::error::DomainErrorView>),
    recipe: Recipe,
    b: (Seq<Entity>, Seq<Entity>),
)
    requires
        balanced_recipe(recipe),
    ensures
        storage_mass(run_converter(s, MAX_HEALTH, recipe, b).0) == storage_mass(s.0),
        run_converter(s, MAX_HEALTH, recipe, b).1 == s.1,
        all_wf(s.0) ==> all_wf(run_converter(s, MAX_HEALTH, recipe, b).0),
{
    let st = s.0;
    let ins = recipe.inputs@;
    let outs = recipe.outputs@;
    if inputs_available(st, ins, b.0) && outputs_room(st, outs, b.1) {
        lemma_withdraw_reqs_clean(s, ins, b.0);
        let s1 = withdraw_reqs(s, ins, b.0);
        assert forall|k: int| 0 <= k < outs.len() implies #[trigger] output_covered(s1.0, outs[k], b.1) by {
            assert(output_covered(st, outs[k], b.1));
            let j = choose|j: int|
                0 <= j < b.1.len() && #[trigger] output_ok(st, outs[k].element_id, outs[k].amount.0, b.1[j]);
            lemma_find_from(st, b.1[j], 0);
            lemma_same_rows_find(st, s1.0, b.1[j]);
            let i = find_first(st, b.1[j]).unwrap();
            assert(s1.0[i].1.current_amount.0 <= st[i].1.current_amount.0);
            assert(s1.0[i].0 == st[i].0);
            assert(s1.0[i].1.capacity == st[i].1.capacity && s1.0[i].1.element_id == st[i].1.element_id);
            assert(spec_available(s1.0[i].1) >= spec_available(st[i].1));
            assert(output_ok(s1.0, outs[k].element_id, outs[k].amount.0, b.1[j]));
        }
        lemma_deposit_reqs_clean(s1, outs, b.1);
    }
}

/// Converter rows that all run at full health with balanced recipes (when they run at all).
pub open spec fn balanced_rows(rows: Seq<(Entity, super::components::Converter)>, recipes: Map<u32, Recipe>) -> bool {
    forall|i: int|
        0 <= i < rows.len() && spec_operational(#[trigger] rows[i].1) && recipes.contains_key(rows[i].1.recipe_id)
            ==> rows[i].1.health == MAX_HEALTH && balanced_recipe(recipes[rows[i].1.recipe_id])
}

pub(crate) proof fn lemma_converters_all_mass(
    s: (Seq<(Entity, Storage)>, Seq<super::super::error::DomainErrorView>),
    bindings: Seq<(Entity, (Seq<Entity>, Seq<Entity>))>,
    recipes: Map<u32, Recipe>,
    rows: Seq<(Entity, super::components::Converter)>,
)
    requires
        balanced_rows(rows, recipes),
    ensures
        storage_mass(converters_all(s, bindings, recipes, rows).0) == storage_mass(s.0),
        converters_all(s, bindings, recipes, rows).1 == s.1,
        all_wf(s.0) ==> all_wf(converters_all(s, bindings, recipes, rows).0),
    decreases rows.len(),
{
    if rows.len() > 0 {
        let prev = rows.drop_last();
        assert(balanced_rows(prev, recipes)) by {
            assert forall|i: int|
                0 <= i < prev.len() && spec_operational(#[trigger] prev[i].1) && recipes.contains_key(
                    prev[i].1.recipe_id,
                ) implies prev[i].1.health == MAX_HEALTH && balanced_recipe(recipes[prev[i].1.recipe_id]) by {
                assert(prev[i] == rows[i]);
            }
        }
        lemma_converters_all_mass(s, bindings, recipes, prev);
        let r = converters_all(s, bindings, recipes, prev);
        let row = rows.last();
        assert(row == rows[rows.len() - 1]);
        if spec_operational(row.1) {
            match find_first(bindings, row.0) {
                Some(bi) => {
                    if recipes.contains_key(row.1.recipe_id) {
                        lemma_run_converter_mass(r, recipes[row.1.recipe_id], bindings[bi].1);
                    }
                },
                None => {},
            }
        }
    }
}

/// A whole tick conserves mass: when every edge is lossless, every packet in flight is
/// non-negative, and every converter that runs is at full health with a balanced recipe (inputs
/// totalling outputs, no negative amount, no element named twice among the inputs or twice
/// among the outputs), the stored plus in-flight mass after
/// the tick equals the mass before it, and the first two conditions still hold.
pub proof fn law_tick_conserves_mass(s: NetState)
    requires
        lossless_edges(s.edges),
        nonneg_packets(s.edges),
        balanced_converters(s),
        pipeline_spec(s) is Some,
    ensures
        total_mass(pipeline_spec(s).unwrap()) == total_mass(s),
        lossless_edges(pipeline_spec(s).unwrap().edges),
        nonneg_packets(pipeline_spec(s).unwrap().edges),
        pipeline_spec(s).unwrap().converters == s.converters,
        pipeline_spec(s).unwrap().recipes == s.recipes,
{
    let s1 = advance_spec(s).unwrap();
    let s2 = poll_spec(s1).unwrap();
    let s3 = contention_spec(s2).unwrap();
    assert(s3.storages == s.storages && s3.edges == s.edges);
    law_transit_conserves_mass(s3);
    let s4 = transit_spec(s3).unwrap();
    let s5 = relocating_spec(s4);
    assert(balanced_rows(s5.converters, s5.recipes)) by {
        assert forall|i: int|
            0 <= i < s5.converters.len() && spec_operational(#[trigger] s5.converters[i].1) && s5.recipes.contains_key(
                s5.converters[i].1.recipe_id,
            ) implies s5.converters[i].1.health == MAX_HEALTH && balanced_recipe(
            s5.recipes[s5.converters[i].1.recipe_id],
        ) by {
            assert(s5.converters[i] == s.converters[i]);
        }
    }
    lemma_converters_all_mass((s5.storages, s5.errors), s5.bindings, s5.recipes, s5.converters);
}

/// The network state after one call of `tick_simulation_world`: the pipeline's result,
/// with the log cleared (its first error, if any, is handed to the caller).
pub open spec fn tick_result(s: NetState) -> Option<NetState> {
    match pipeline_spec(s) {
        None => None,
        Some(p) => Some(NetState { errors: Seq::empty(), ..p }),
    }
}

/// The network state after `n` successive ticks; `None` when one of them would leave its
/// machine ranges.
pub open spec fn ticks(s: NetState, n: nat) -> Option<NetState>
    decreases n,
{
    if n == 0 {
        Some(s)
    } else {
        match ticks(s, (n - 1) as nat) {
            None => None,
            Some(t) => tick_result(t),
        }
    }
}

/// Mass is conserved across any number of ticks: under the conditions of
/// `law_tick_conserves_mass`, the stored plus in-flight mass after `n` ticks equals the
/// mass before them, and those conditions keep holding from tick to tick.
pub proof fn law_ticks_conserve_mass(s: NetState, n: nat)
    requires
        lossless_edges(s.edges),
        nonneg_packets(s.edges),
        balanced_converters(s),
        ticks(s, n) is Some,
    ensures
        total_mass(ticks(s, n).unwrap()) == total_mass(s),
        lossless_edges(ticks(s, n).unwrap().edges),
        nonneg_packets(ticks(s, n).unwrap().edges),
        balanced_converters(ticks(s, n).unwrap()),
    decreases n,
{
    if n > 0 {
        law_ticks_conserve_mass(s, (n - 1) as nat);
        let t = ticks(s, (n - 1) as nat).unwrap();
        law_tick_conserves_mass(t);
        let p = pipeline_spec(t).unwrap();
        let u = ticks(s, n).unwrap();
        assert(u.storages == p.storages && u.edges == p.edges && u.converters == p.converters && u.recipes
            == p.recipes);
        assert forall|i: int|
            0 <= i < u.converters.len() && spec_operational(#[trigger] u.converters[i].1) && u.recipes.contains_key(
                u.converters[i].1.recipe_id,
            ) implies u.converters[i].1.health == MAX_HEALTH && balanced_recipe(
            u.recipes[u.converters[i].1.recipe_id],
        ) by {
            assert(u.converters[i] == t.converters[i]);
        }
    }
}

} // verus!
