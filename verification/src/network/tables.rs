//! The tick keeps a well-formed world well formed: every phase updates rows in place or drops
//! them, so each component table keeps one row per entity, all of spawned entities.

use vstd::prelude::*;
use crate::error::DomainErrorView;
use super::components::{Entity, Relocating, Storage};
use super::conversion::{
    converter_step, converters_all, converters_spec, deposit_req, deposit_reqs, first_input, first_output, input_ok,
    output_ok, run_converter, withdraw_req, withdraw_reqs,
};
use super::demand::{contention_spec, poll_spec};
use super::resources::{EdgeAllocation, Recipe, RecipeIngredient};
use super::systems::{advance_spec, law_relocations_retire_on_arrival, pending_relocations, pipeline_spec, relocating_spec};
use super::transit::{deliver_spec, dispatch_all, dispatch_spec, lemma_deliver_edges_len, transit_spec, EdgeTable};
use super::world::{find_first, lemma_find_from, table_ok, NetState};
use super::clean::lemma_deliver_edges_grows;


verus! {

/// Two tables whose rows carry the same entities in the same order.
pub open spec fn same_keys<T, U>(a: Seq<(Entity, T)>, b: Seq<(Entity, U)>) -> bool {
    a.len() == b.len() && forall|m: int| 0 <= m < a.len() ==> #[trigger] b[m].0 == a[m].0
}

proof fn lemma_same_keys_ok<T, U>(a: Seq<(Entity, T)>, b: Seq<(Entity, U)>, n: u32)
    requires
        table_ok(a, n),
        same_keys(a, b),
    ensures
        table_ok(b, n),
{
    assert forall|i: int, j: int| 0 <= i < j < b.len() implies #[trigger] b[i].0 != #[trigger] b[j].0 by {
        assert(b[i].0 == a[i].0 && b[j].0 == a[j].0);
    }
    assert forall|i: int| 0 <= i < b.len() implies #[trigger] b[i].0.0 < n by {
        assert(b[i].0 == a[i].0);
    }
}

proof fn lemma_same_keys_trans<T, U, V>(a: Seq<(Entity, T)>, b: Seq<(Entity, U)>, c: Seq<(Entity, V)>)
    requires
        same_keys(a, b),
        same_keys(b, c),
    ensures
        same_keys(a, c),
{
    assert forall|m: int| 0 <= m < a.len() implies #[trigger] c[m].0 == a[m].0 by {
        assert(b[m].0 == a[m].0);
    }
}

proof fn lemma_update_keys<T>(st: Seq<(Entity, T)>, i: int, x: T)
    requires
        0 <= i < st.len(),
    ensures
        same_keys(st, st.update(i, (st[i].0, x))),
{
}

proof fn lemma_first_input_ok(st: Seq<(Entity, Storage)>, req: RecipeIngredient, bs: Seq<Entity>, k: int)
    requires
        0 <= k,
    ensures
        first_input(st, req, bs, k) matches Some(j) ==> k <= j < bs.len() && input_ok(st, req, bs[j]),
    decreases bs.len() - k,
{
    if k < bs.len() && !input_ok(st, req, bs[k]) {
        lemma_first_input_ok(st, req, bs, k + 1);
    }
}

proof fn lemma_first_output_ok(st: Seq<(Entity, Storage)>, el: u32, amount: i64, bs: Seq<Entity>, k: int)
    requires
        0 <= k,
    ensures
        first_output(st, el, amount, bs, k) matches Some(j) ==> k <= j < bs.len() && output_ok(st, el, amount, bs[j]),
    decreases bs.len() - k,
{
    if k < bs.len() && !output_ok(st, el, amount, bs[k]) {
        lemma_first_output_ok(st, el, amount, bs, k + 1);
    }
}

proof fn lemma_withdraw_reqs_keys(s: (Seq<(Entity, Storage)>, Seq<DomainErrorView>), reqs: Seq<RecipeIngredient>, bs: Seq<Entity>)
    ensures
        same_keys(s.0, withdraw_reqs(s, reqs, bs).0),
    decreases reqs.len(),
{
    if reqs.len() > 0 {
        lemma_withdraw_reqs_keys(s, reqs.drop_last(), bs);
        let r = withdraw_reqs(s, reqs.drop_last(), bs);
        let req = reqs.last();
        lemma_first_input_ok(r.0, req, bs, 0);
        if let Some(j) = first_input(r.0, req, bs, 0) {
            lemma_find_from(r.0, bs[j], 0);
            let i = find_first(r.0, bs[j]).unwrap();
            if let Ok(s2) = super::components::withdraw_outcome(r.0[i].1, req.amount.0) {
                lemma_update_keys(r.0, i, s2);
                lemma_same_keys_trans(s.0, r.0, withdraw_req(r, req, bs).0);
            }
        }
    }
}

proof fn lemma_deposit_reqs_keys(
    s: (Seq<(Entity, Storage)>, Seq<DomainErrorView>),
    reqs: Seq<RecipeIngredient>,
    bs: Seq<Entity>,
    health: u16,
)
    ensures
        same_keys(s.0, deposit_reqs(s, reqs, bs, health).0),
    decreases reqs.len(),
{
    if reqs.len() > 0 {
        lemma_deposit_reqs_keys(s, reqs.drop_last(), bs, health);
        let r = deposit_reqs(s, reqs.drop_last(), bs, health);
        let req = reqs.last();
        let y = super::conversion::yield_amount(req.amount.0, health);
        lemma_first_output_ok(r.0, req.element_id, y, bs, 0);
        if let Some(j) = first_output(r.0, req.element_id, y, bs, 0) {
            lemma_find_from(r.0, bs[j], 0);
            let i = find_first(r.0, bs[j]).unwrap();
            if let Ok(s2) = super::components::deposit_outcome(r.0[i].1, y) {
                lemma_update_keys(r.0, i, s2);
                lemma_same_keys_trans(s.0, r.0, deposit_req(r, req, bs, health).0);
            }
        }
    }
}

proof fn lemma_converters_all_keys(
    s: (Seq<(Entity, Storage)>, Seq<DomainErrorView>),
    bindings: Seq<(Entity, (Seq<Entity>, Seq<Entity>))>,
    recipes: Map<u32, Recipe>,
    rows: Seq<(Entity, super::components::Converter)>,
)
    ensures
        same_keys(s.0, converters_all(s, bindings, recipes, rows).0),
    decreases rows.len(),
{
    if rows.len() > 0 {
        lemma_converters_all_keys(s, bindings, recipes, rows.drop_last());
        let r = converters_all(s, bindings, recipes, rows.drop_last());
        let row = rows.last();
        if let Some(bi) = find_first(bindings, row.0) {
            if recipes.contains_key(row.1.recipe_id) {
                let recipe = recipes[row.1.recipe_id];
                let b = bindings[bi].1;
                lemma_withdraw_reqs_keys(r, recipe.inputs@, b.0);
                let w = withdraw_reqs(r, recipe.inputs@, b.0);
                lemma_deposit_reqs_keys(w, recipe.outputs@, b.1, row.1.health);
                lemma_same_keys_trans(r.0, w.0, deposit_reqs(w, recipe.outputs@, b.1, row.1.health).0);
                lemma_same_keys_trans(s.0, r.0, run_converter(r, row.1.health, recipe, b).0);
            }
        }
        lemma_same_keys_trans(s.0, r.0, converter_step(r, bindings, recipes, row).0);
    }
}

proof fn lemma_dispatch_keys(
    s: (Seq<(Entity, Storage)>, EdgeTable, Seq<DomainErrorView>),
    tick: u64,
    al: Seq<EdgeAllocation>,
)
    requires
        dispatch_all(s, tick, al) is Some,
    ensures
        same_keys(s.0, dispatch_all(s, tick, al).unwrap().0),
        same_keys(s.1, dispatch_all(s, tick, al).unwrap().1),
    decreases al.len(),
{
    if al.len() > 0 {
        lemma_dispatch_keys(s, tick, al.drop_last());
        let r = dispatch_all(s, tick, al.drop_last()).unwrap();
        let a = al.last();
        let r2 = dispatch_all(s, tick, al).unwrap();
        if a.allocated_amount.0 > 0 {
            lemma_find_from(r.1, a.edge_entity, 0);
            if let Some(ei) = find_first(r.1, a.edge_entity) {
                let edge = r.1[ei].1.0;
                lemma_find_from(r.0, edge.source, 0);
                if let Some(si) = find_first(r.0, edge.source) {
                    if let Ok(s2) = super::components::withdraw_outcome(r.0[si].1, a.allocated_amount.0) {
                        lemma_update_keys(r.0, si, s2);
                        lemma_update_keys(r.1, ei, r2.1[ei].1);
                        assert(r2.1 == r.1.update(ei, (r.1[ei].0, r2.1[ei].1)));
                    }
                }
            }
        }
        lemma_same_keys_trans(s.0, r.0, r2.0);
        lemma_same_keys_trans(s.1, r.1, r2.1);
    }
}

proof fn lemma_pending_ok(rows: Seq<(Entity, Relocating)>, tick: u64, n: u32)
    requires
        table_ok(rows, n),
    ensures
        table_ok(pending_relocations(rows, tick), n),
    decreases rows.len(),
{
    if rows.len() > 0 {
        let d = rows.drop_last();
        assert(table_ok(d, n)) by {
            assert forall|i: int, j: int| 0 <= i < j < d.len() implies #[trigger] d[i].0 != #[trigger] d[j].0 by {
                assert(d[i] == rows[i] && d[j] == rows[j]);
            }
            assert forall|i: int| 0 <= i < d.len() implies #[trigger] d[i].0.0 < n by {
                assert(d[i] == rows[i]);
            }
        }
        lemma_pending_ok(d, tick, n);
        let p = pending_relocations(d, tick);
        let q = pending_relocations(rows, tick);
        let last = rows.last();
        assert(rows[rows.len() - 1] == last);
        if last.1.arrival_tick > tick {
            law_relocations_retire_on_arrival(d, tick);
            assert forall|i: int, j: int| 0 <= i < j < q.len() implies #[trigger] q[i].0 != #[trigger] q[j].0 by {
                assert(q[i] == p[i]);
                if j < p.len() {
                    assert(q[j] == p[j]);
                } else {
                    assert(q[j] == last);
                    assert(p[i].1.arrival_tick > tick && d.contains(p[i]));
                    let k = choose|k: int| 0 <= k < d.len() && d[k] == p[i];
                    assert(rows[k] == d[k]);
                    assert(rows[k].0 != rows[rows.len() - 1].0);
                }
            }
            assert forall|i: int| 0 <= i < q.len() implies #[trigger] q[i].0.0 < n by {
                if i < p.len() {
                    assert(q[i] == p[i]);
                }
            }
        } else {
            assert(q =~= p);
        }
    }
}

/// The pipeline keeps each table's entities: the storage and edge tables keep their rows'
/// entities in order, converters and bindings are untouched, and relocation tags are only
/// dropped; so every table that was one-row-per-entity below `n` stays so.
pub proof fn lemma_pipeline_tables(s: NetState, n: u32)
    requires
        pipeline_spec(s) is Some,
        table_ok(s.storages, n),
        table_ok(s.edges, n),
        table_ok(s.relocating, n),
    ensures
        table_ok(pipeline_spec(s).unwrap().storages, n),
        table_ok(pipeline_spec(s).unwrap().edges, n),
        table_ok(pipeline_spec(s).unwrap().relocating, n),
        pipeline_spec(s).unwrap().converters == s.converters,
        pipeline_spec(s).unwrap().bindings == s.bindings,
{
    let s1 = advance_spec(s).unwrap();
    let s2 = poll_spec(s1).unwrap();
    let s3 = contention_spec(s2).unwrap();
    let s4 = deliver_spec(s3).unwrap();
    lemma_deliver_edges_grows(s3.storages, s3.tick, s3.edges);
    lemma_deliver_edges_len(s3.storages, s3.tick, s3.edges);
    assert(same_keys(s.storages, s4.storages)) by {
        assert forall|m: int| 0 <= m < s.storages.len() implies #[trigger] s4.storages[m].0 == s.storages[m].0 by {
        }
    }
    assert(same_keys(s.edges, s4.edges));
    let s5 = transit_spec(s3).unwrap();
    lemma_dispatch_keys((s4.storages, s4.edges, s4.errors), s4.tick, s4.allocations);
    lemma_same_keys_trans(s.storages, s4.storages, s5.storages);
    lemma_same_keys_trans(s.edges, s4.edges, s5.edges);
    let s6 = relocating_spec(s5);
    lemma_pending_ok(s5.relocating, s5.tick, n);
    lemma_converters_all_keys((s6.storages, s6.errors), s6.bindings, s6.recipes, s6.converters);
    let s7 = converters_spec(s6);
    lemma_same_keys_trans(s.storages, s6.storages, s7.storages);
    lemma_same_keys_ok(s.storages, s7.storages, n);
    lemma_same_keys_ok(s.edges, s7.edges, n);
}

} // verus!
