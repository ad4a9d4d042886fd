//! Phase 4: converters consume recipe inputs from bound storages and deposit outputs.

use vstd::prelude::*;
use crate::error::DomainErrorView;
use super::components::{deposit_outcome, withdraw_outcome, spec_available, spec_operational, Converter, ConverterBindings, Entity, Storage};
use super::resources::{error_views, Recipe, RecipeIngredient, TickErrorLog};
use super::types::{in_i64, ratio_ok, ratio_quotient, trunc_div, ResourceAmount};
use super::world::{bindings_row_view, find_first, find_row, lemma_find_from, NetState, World};

verus! {

/// Basis units of full converter health.
pub const HEALTH_SCALE: i64 = 10_000;

/// Storage `e` holds the ingredient's element with at least its amount.
pub open spec fn input_ok(st: Seq<(Entity, Storage)>, req: RecipeIngredient, e: Entity) -> bool {
    match find_first(st, e) {
        Some(i) => st[i].1.element_id == req.element_id && st[i].1.current_amount.0 >= req.amount.0,
        None => false,
    }
}

/// Storage `e` holds `element_id` and has room for at least `amount`.
pub open spec fn output_ok(st: Seq<(Entity, Storage)>, element_id: u32, amount: i64, e: Entity) -> bool {
    match find_first(st, e) {
        Some(i) => st[i].1.element_id == element_id && spec_available(st[i].1) >= amount,
        None => false,
    }
}

/// Some input storage can supply the ingredient.
pub open spec fn input_covered(st: Seq<(Entity, Storage)>, req: RecipeIngredient, bs: Seq<Entity>) -> bool {
    exists|j: int| 0 <= j < bs.len() && #[trigger] input_ok(st, req, bs[j])
}

/// Some output storage has room for the product at its nominal amount.
pub open spec fn output_covered(st: Seq<(Entity, Storage)>, req: RecipeIngredient, bs: Seq<Entity>) -> bool {
    exists|j: int| 0 <= j < bs.len() && #[trigger] output_ok(st, req.element_id, req.amount.0, bs[j])
}

/// Every ingredient is held by some input storage.
pub open spec fn inputs_available(st: Seq<(Entity, Storage)>, reqs: Seq<RecipeIngredient>, bs: Seq<Entity>) -> bool {
    forall|k: int| 0 <= k < reqs.len() ==> #[trigger] input_covered(st, reqs[k], bs)
}

/// Every product has room (at its nominal amount) in some output storage.
pub open spec fn outputs_room(st: Seq<(Entity, Storage)>, reqs: Seq<RecipeIngredient>, bs: Seq<Entity>) -> bool {
    forall|k: int| 0 <= k < reqs.len() ==> #[trigger] output_covered(st, reqs[k], bs)
}

/// First binding at or after `j` that can supply the ingredient.
pub open spec fn first_input(st: Seq<(Entity, Storage)>, req: RecipeIngredient, bs: Seq<Entity>, j: int) -> Option<int>
    decreases bs.len() - j,
{
    if j < 0 || j >= bs.len() {
        None
    } else if input_ok(st, req, bs[j]) {
        Some(j)
    } else {
        first_input(st, req, bs, j + 1)
    }
}

/// First binding at or after `j` that can take `amount` of `element_id`.
pub open spec fn first_output(st: Seq<(Entity, Storage)>, element_id: u32, amount: i64, bs: Seq<Entity>, j: int) -> Option<int>
    decreases bs.len() - j,
{
    if j < 0 || j >= bs.len() {
        None
    } else if output_ok(st, element_id, amount, bs[j]) {
        Some(j)
    } else {
        first_output(st, element_id, amount, bs, j + 1)
    }
}

/// Withdraws one ingredient from the first input storage able to supply it.
pub open spec fn withdraw_req(
    s: (Seq<(Entity, Storage)>, Seq<DomainErrorView>),
    req: RecipeIngredient,
    bs: Seq<Entity>,
) -> (Seq<(Entity, Storage)>, Seq<DomainErrorView>) {
    match first_input(s.0, req, bs, 0) {
        None => s,
        Some(j) => {
            let i = find_first(s.0, bs[j]).unwrap();
            match withdraw_outcome(s.0[i].1, req.amount.0) {
                Ok(s2) => (s.0.update(i, (s.0[i].0, s2)), s.1),
                Err(e) => (s.0, s.1.push(e)),
            }
        },
    }
}

/// Withdraws all ingredients, in order.
pub open spec fn withdraw_reqs(
    s: (Seq<(Entity, Storage)>, Seq<DomainErrorView>),
    reqs: Seq<RecipeIngredient>,
    bs: Seq<Entity>,
) -> (Seq<(Entity, Storage)>, Seq<DomainErrorView>)
    decreases reqs.len(),
{
    if reqs.len() == 0 {
        s
    } else {
        withdraw_req(withdraw_reqs(s, reqs.drop_last(), bs), reqs.last(), bs)
    }
}

/// Product amount scaled by health: `amount * health / 10000`, or `amount` when that ratio
/// cannot be computed.
pub open spec fn yield_amount(amount: i64, health: u16) -> i64 {
    if ratio_ok(amount, health as i64, HEALTH_SCALE) {
        ratio_quotient(amount, health as i64, HEALTH_SCALE) as i64
    } else {
        amount
    }
}

/// Deposits one product (scaled by health) into the first output storage with room for it.
pub open spec fn deposit_req(
    s: (Seq<(Entity, Storage)>, Seq<DomainErrorView>),
    req: RecipeIngredient,
    bs: Seq<Entity>,
    health: u16,
) -> (Seq<(Entity, Storage)>, Seq<DomainErrorView>) {
    let y = yield_amount(req.amount.0, health);
    match first_output(s.0, req.element_id, y, bs, 0) {
        None => s,
        Some(j) => {
            let i = find_first(s.0, bs[j]).unwrap();
            match deposit_outcome(s.0[i].1, y) {
                Ok(s2) => (s.0.update(i, (s.0[i].0, s2)), s.1),
                Err(e) => (s.0, s.1.push(e)),
            }
        },
    }
}

/// Deposits all products, in order.
pub open spec fn deposit_reqs(
    s: (Seq<(Entity, Storage)>, Seq<DomainErrorView>),
    reqs: Seq<RecipeIngredient>,
    bs: Seq<Entity>,
    health: u16,
) -> (Seq<(Entity, Storage)>, Seq<DomainErrorView>)
    decreases reqs.len(),
{
    if reqs.len() == 0 {
        s
    } else {
        deposit_req(deposit_reqs(s, reqs.drop_last(), bs, health), reqs.last(), bs, health)
    }
}

/// One conversion cycle: when every ingredient is available and every product has room,
/// the ingredients are withdrawn and the products deposited; otherwise nothing changes.
pub open spec fn run_converter(
    s: (Seq<(Entity, Storage)>, Seq<DomainErrorView>),
    health: u16,
    recipe: Recipe,
    b: (Seq<Entity>, Seq<Entity>),
) -> (Seq<(Entity, Storage)>, Seq<DomainErrorView>) {
    if inputs_available(s.0, recipe.inputs@, b.0) && outputs_room(s.0, recipe.outputs@, b.1) {
        deposit_reqs(withdraw_reqs(s, recipe.inputs@, b.0), recipe.outputs@, b.1, health)
    } else {
        s
    }
}

/// Phase 4 step for one converter row: operational converters with bindings and a
/// registered recipe run one cycle.
pub open spec fn converter_step(
    s: (Seq<(Entity, Storage)>, Seq<DomainErrorView>),
    bindings: Seq<(Entity, (Seq<Entity>, Seq<Entity>))>,
    recipes: Map<u32, Recipe>,
    row: (Entity, Converter),
) -> (Seq<(Entity, Storage)>, Seq<DomainErrorView>) {
    if !spec_operational(row.1) {
        s
    } else {
        match find_first(bindings, row.0) {
            None => s,
            Some(bi) => if recipes.contains_key(row.1.recipe_id) {
                run_converter(s, row.1.health, recipes[row.1.recipe_id], bindings[bi].1)
            } else {
                s
            },
        }
    }
}

/// Phase 4 over all converter rows, in order.
pub open spec fn converters_all(
    s: (Seq<(Entity, Storage)>, Seq<DomainErrorView>),
    bindings: Seq<(Entity, (Seq<Entity>, Seq<Entity>))>,
    recipes: Map<u32, Recipe>,
    rows: Seq<(Entity, Converter)>,
) -> (Seq<(Entity, Storage)>, Seq<DomainErrorView>)
    decreases rows.len(),
{
    if rows.len() == 0 {
        s
    } else {
        converter_step(converters_all(s, bindings, recipes, rows.drop_last()), bindings, recipes, rows.last())
    }
}

/// Phase 4 on the pipeline state.
pub open spec fn converters_spec(s: NetState) -> NetState {
    let r = converters_all((s.storages, s.errors), s.bindings, s.recipes, s.converters);
    NetState { storages: r.0, errors: r.1, ..s }
}

fn input_ok_exec(st: &Vec<(Entity, Storage)>, req: RecipeIngredient, e: Entity) -> (r: bool)
    ensures
        r == input_ok(st@, req, e),
{
    match find_row(st, e) {
        Some(i) => st[i].1.element_id == req.element_id && st[i].1.current_amount.0 >= req.amount.0,
        None => false,
    }
}

fn output_ok_exec(st: &Vec<(Entity, Storage)>, element_id: u32, amount: i64, e: Entity) -> (r: bool)
    ensures
        r == output_ok(st@, element_id, amount, e),
{
    match find_row(st, e) {
        Some(i) => st[i].1.element_id == element_id && st[i].1.available_capacity().0 >= amount,
        None => false,
    }
}

fn check_inputs(st: &Vec<(Entity, Storage)>, reqs: &Vec<RecipeIngredient>, bs: &Vec<Entity>) -> (r: bool)
    ensures
        r == inputs_available(st@, reqs@, bs@),
{
    let mut k: usize = 0;
    while k < reqs.len()
        invariant
            k <= reqs@.len(),
            forall|m: int| 0 <= m < k ==> #[trigger] input_covered(st@, reqs@[m], bs@),
        decreases reqs.len() - k,
    {
        let mut found = false;
        let mut j: usize = 0;
        while j < bs.len() && !found
            invariant
                k < reqs@.len(),
                j <= bs@.len(),
                forall|m: int| 0 <= m < k ==> #[trigger] input_covered(st@, reqs@[m], bs@),
                found ==> j < bs@.len() && input_ok(st@, reqs@[k as int], bs@[j as int]),
                !found ==> forall|jj: int| 0 <= jj < j ==> !#[trigger] input_ok(st@, reqs@[k as int], bs@[jj]),
            decreases bs.len() - j + if found { 0int } else { 1int },
        {
            if input_ok_exec(st, reqs[k], bs[j]) {
                found = true;
            } else {
                j = j + 1;
            }
        }
        if !found {
            assert(!input_covered(st@, reqs@[k as int], bs@));
            assert(!inputs_available(st@, reqs@, bs@));
            return false;
        }
        assert(input_ok(st@, reqs@[k as int], bs@[j as int]));
        assert(input_covered(st@, reqs@[k as int], bs@));
        k = k + 1;
    }
    true
}

fn check_outputs(st: &Vec<(Entity, Storage)>, reqs: &Vec<RecipeIngredient>, bs: &Vec<Entity>) -> (r: bool)
    ensures
        r == outputs_room(st@, reqs@, bs@),
{
    let mut k: usize = 0;
    while k < reqs.len()
        invariant
            k <= reqs@.len(),
            forall|m: int| 0 <= m < k ==> #[trigger] output_covered(st@, reqs@[m], bs@),
        decreases reqs.len() - k,
    {
        let mut found = false;
        let mut j: usize = 0;
        let req = reqs[k];
        while j < bs.len() && !found
            invariant
                k < reqs@.len(),
                req == reqs@[k as int],
                j <= bs@.len(),
                forall|m: int| 0 <= m < k ==> #[trigger] output_covered(st@, reqs@[m], bs@),
                found ==> j < bs@.len() && output_ok(st@, req.element_id, req.amount.0, bs@[j as int]),
                !found ==> forall|jj: int| 0 <= jj < j ==> !#[trigger] output_ok(st@, req.element_id, req.amount.0, bs@[jj]),
            decreases bs.len() - j + if found { 0int } else { 1int },
        {
            if output_ok_exec(st, req.element_id, req.amount.0, bs[j]) {
                found = true;
            } else {
                j = j + 1;
            }
        }
        if !found {
            assert(!output_covered(st@, reqs@[k as int], bs@));
            assert(!outputs_room(st@, reqs@, bs@));
            return false;
        }
        assert(output_ok(st@, req.element_id, req.amount.0, bs@[j as int]));
        assert(output_covered(st@, reqs@[k as int], bs@));
        k = k + 1;
    }
    true
}

fn withdraw_one(st: &mut Vec<(Entity, Storage)>, log: &mut TickErrorLog, req: RecipeIngredient, bs: &Vec<Entity>)
    ensures
        (final(st)@, error_views(final(log).errors@)) == withdraw_req((old(st)@, error_views(old(log).errors@)), req, bs@),
{
    let ghost s0 = (st@, error_views(log.errors@));
    let mut j: usize = 0;
    while j < bs.len()
        invariant
            s0 == (old(st)@, error_views(old(log).errors@)),
            st@ == s0.0,
            error_views(log.errors@) == s0.1,
            j <= bs@.len(),
            first_input(s0.0, req, bs@, 0) == first_input(s0.0, req, bs@, j as int),
        decreases bs.len() - j,
    {
        let e = bs[j];
        match find_row(st, e) {
            Some(i) => {
                if st[i].1.element_id == req.element_id && st[i].1.current_amount.0 >= req.amount.0 {
                    assert(input_ok(s0.0, req, bs@[j as int]));
                    assert(first_input(s0.0, req, bs@, j as int) == Some(j as int));
                    assert(first_input(s0.0, req, bs@, 0) == Some(j as int));
                    assert(find_first(s0.0, bs@[j as int]) == Some(i as int));
                    let ent = st[i].0;
                    let mut s = st[i].1;
                    match s.withdraw(req.amount) {
                        Ok(_) => {
                            st.set(i, (ent, s));
                            assert(withdraw_outcome(s0.0[i as int].1, req.amount.0) == Ok::<Storage, DomainErrorView>(s));
                            assert(st@ == s0.0.update(i as int, (s0.0[i as int].0, s)));

                        },
                        Err(err) => {
                            let ghost ev = err@;
                            log.push(err);
                            assert(error_views(log.errors@) =~= s0.1.push(ev));

                        },
                    }
                    return;
                }
            },
            None => {},
        }
        j = j + 1;
    }
}

fn deposit_one(st: &mut Vec<(Entity, Storage)>, log: &mut TickErrorLog, req: RecipeIngredient, bs: &Vec<Entity>, health: u16)
    ensures
        (final(st)@, error_views(final(log).errors@)) == deposit_req((old(st)@, error_views(old(log).errors@)), req, bs@, health),
{
    let ghost s0 = (st@, error_views(log.errors@));
    let y = match req.amount.checked_mul_ratio(health as i64, HEALTH_SCALE) {
        Ok(a) => a,
        Err(_) => req.amount,
    };
    assert(y.0 == yield_amount(req.amount.0, health));
    let mut j: usize = 0;
    while j < bs.len()
        invariant
            s0 == (old(st)@, error_views(old(log).errors@)),
            st@ == s0.0,
            error_views(log.errors@) == s0.1,
            y.0 == yield_amount(req.amount.0, health),
            j <= bs@.len(),
            first_output(s0.0, req.element_id, y.0, bs@, 0) == first_output(s0.0, req.element_id, y.0, bs@, j as int),
        decreases bs.len() - j,
    {
        let e = bs[j];
        match find_row(st, e) {
            Some(i) => {
                if st[i].1.element_id == req.element_id && st[i].1.available_capacity().0 >= y.0 {
                    assert(output_ok(s0.0, req.element_id, y.0, bs@[j as int]));
                    assert(first_output(s0.0, req.element_id, y.0, bs@, j as int) == Some(j as int));
                    assert(first_output(s0.0, req.element_id, y.0, bs@, 0) == Some(j as int));
                    assert(find_first(s0.0, bs@[j as int]) == Some(i as int));
                    let ent = st[i].0;
                    let mut s = st[i].1;
                    match s.deposit(y) {
                        Ok(_) => {
                            st.set(i, (ent, s));
                            assert(deposit_outcome(s0.0[i as int].1, y.0) == Ok::<Storage, DomainErrorView>(s));
                            assert(st@ == s0.0.update(i as int, (s0.0[i as int].0, s)));
                        },
                        Err(err) => {
                            let ghost ev = err@;
                            log.push(err);
                            assert(error_views(log.errors@) =~= s0.1.push(ev));
                        },
                    }
                    return;
                }
            },
            None => {},
        }
        j = j + 1;
    }
}

/// Runs one conversion cycle of a converter with the given health, recipe and bindings.
pub fn execute_single_converter(
    st: &mut Vec<(Entity, Storage)>,
    log: &mut TickErrorLog,
    health: u16,
    recipe: &Recipe,
    bindings: &ConverterBindings,
)
    ensures
        (final(st)@, error_views(final(log).errors@)) == run_converter(
            (old(st)@, error_views(old(log).errors@)),
            health,
            *recipe,
            (bindings.inputs@, bindings.outputs@),
        ),
{
    if !check_inputs(st, &recipe.inputs, &bindings.inputs) {
        return;
    }
    if !check_outputs(st, &recipe.outputs, &bindings.outputs) {
        return;
    }
    let ghost s0 = (st@, error_views(log.errors@));
    let ghost ins = recipe.inputs@;
    let mut k: usize = 0;
    while k < recipe.inputs.len()
        invariant
            ins == recipe.inputs@,
            k <= ins.len(),
            (st@, error_views(log.errors@)) == withdraw_reqs(s0, ins.take(k as int), bindings.inputs@),
        decreases recipe.inputs.len() - k,
    {
        assert(ins.take(k + 1).drop_last() =~= ins.take(k as int));
        withdraw_one(st, log, recipe.inputs[k], &bindings.inputs);
        k = k + 1;
    }
    assert(ins.take(ins.len() as int) =~= ins);
    let ghost s1 = (st@, error_views(log.errors@));
    let ghost outs = recipe.outputs@;
    let mut k: usize = 0;
    while k < recipe.outputs.len()
        invariant
            outs == recipe.outputs@,
            k <= outs.len(),
            (st@, error_views(log.errors@)) == deposit_reqs(s1, outs.take(k as int), bindings.outputs@, health),
        decreases recipe.outputs.len() - k,
    {
        assert(outs.take(k + 1).drop_last() =~= outs.take(k as int));
        deposit_one(st, log, recipe.outputs[k], &bindings.outputs, health);
        k = k + 1;
    }
    assert(outs.take(outs.len() as int) =~= outs);
}

/// Phase 4: every operational converter with bindings and a registered recipe runs one cycle,
/// in converter order.
pub fn execute_converters_system(w: &mut World)
    ensures
        final(w).net() == converters_spec(old(w).net()),
        final(w).same_outside_net(old(w)),
{
    let ghost s = w.net();
    let n = w.converters.len();
    let mut k: usize = 0;
    while k < n
        invariant
            n == s.converters.len(),
            w.converters@ == s.converters,
            k <= n,
            (w.storages@, w.net().errors) == converters_all(
                (s.storages, s.errors),
                s.bindings,
                s.recipes,
                s.converters.take(k as int),
            ),
            w.current_tick == old(w).current_tick,
            w.same_outside_net(old(w)),
            w.net().edges == s.edges,
            w.net().bindings == s.bindings,
            w.relocating@ == s.relocating,
            w.recipes@ == s.recipes,
            w.pending_demand.demands@ == s.demands,
            w.flow_allocations.allocations@ == s.allocations,
        decreases n - k,
    {
        assert(s.converters.take(k + 1).drop_last() =~= s.converters.take(k as int));
        let (ent, conv) = w.converters[k];
        if conv.is_operational() {
            match find_row(&w.bindings, ent) {
                Some(bi) => {
                    proof {
                        lemma_bindings_find(w.bindings@, ent);
                    }
                    match w.recipes.get(conv.recipe_id) {
                        Some(recipe) => {
                            execute_single_converter(
                                &mut w.storages,
                                &mut w.error_log,
                                conv.health,
                                recipe,
                                &w.bindings[bi].1,
                            );
                        },
                        None => {},
                    }
                },
                None => {
                    proof {
                        lemma_bindings_find(w.bindings@, ent);
                    }
                },
            }
        }
        k = k + 1;
    }
    assert(s.converters.take(n as int) =~= s.converters);
    assert(w.net() =~= converters_spec(s));
}

proof fn lemma_bindings_find(rows: Seq<(Entity, ConverterBindings)>, e: Entity)
    ensures
        find_first(rows, e) == find_first(rows.map_values(|x: (Entity, ConverterBindings)| bindings_row_view(x)), e),
{
    let v = rows.map_values(|x: (Entity, ConverterBindings)| bindings_row_view(x));
    assert forall|m: int| 0 <= m < rows.len() implies #[trigger] rows[m].0 == v[m].0 by {}
    super::world::lemma_find_same_keys(rows, v, e, 0);
}

/// The product of a converter scales with its health: at health `h` (at most full health,
/// 10,000) the yield of a nominal amount `a` is `a * h / 10,000` rounded toward zero, that is,
/// the whole number of basis-unit fractions `a * h` covers, never more than `a` in size.
pub proof fn law_yield_scales_with_health(amount: i64, health: u16)
    requires
        health <= 10_000,
    ensures
        amount >= 0 ==> 0 <= yield_amount(amount, health) <= amount && yield_amount(amount, health) * 10_000
            <= amount * health < yield_amount(amount, health) * 10_000 + 10_000,
        amount < 0 ==> amount <= yield_amount(amount, health) <= 0 && yield_amount(amount, health) * 10_000
            >= amount * health > yield_amount(amount, health) * 10_000 - 10_000,
{
    let a = amount as int;
    let h = health as int;
    let p = a * h;
    if a >= 0 {
        assert(0 <= p <= a * 10_000) by (nonlinear_arith)
            requires
                a >= 0,
                0 <= h <= 10_000,
                p == a * h,
        ;
        let q = p / 10_000;
        assert(p == 10_000 * q + p % 10_000 && 0 <= p % 10_000 < 10_000) by {
            vstd::arithmetic::div_mod::lemma_fundamental_div_mod(p, 10_000);
            vstd::arithmetic::div_mod::lemma_mod_pos_bound(p, 10_000);
        }
        assert(0 <= q <= a);
        assert(trunc_div(p, 10_000) == q);
        assert(ratio_quotient(amount, health as i64, HEALTH_SCALE) == q);
        assert(in_i64(q));
    } else {
        assert(a * 10_000 <= p <= 0) by (nonlinear_arith)
            requires
                a < 0,
                0 <= h <= 10_000,
                p == a * h,
        ;
        let np = -p;
        let q = np / 10_000;
        assert(np == 10_000 * q + np % 10_000 && 0 <= np % 10_000 < 10_000) by {
            vstd::arithmetic::div_mod::lemma_fundamental_div_mod(np, 10_000);
            vstd::arithmetic::div_mod::lemma_mod_pos_bound(np, 10_000);
        }
        assert(0 <= q <= -a);
        assert(trunc_div(p, 10_000) == -q);
        assert(ratio_quotient(amount, health as i64, HEALTH_SCALE) == -q);
        assert(in_i64(-q));
    }
}

proof fn lemma_first_output_found_ok(st: Seq<(Entity, Storage)>, el: u32, amount: i64, bs: Seq<Entity>, k: int)
    requires
        0 <= k,
    ensures
        first_output(st, el, amount, bs, k) matches Some(j) ==> k <= j < bs.len() && output_ok(st, el, amount, bs[j]),
    decreases bs.len() - k,
{
    if k < bs.len() && !output_ok(st, el, amount, bs[k]) {
        lemma_first_output_found_ok(st, el, amount, bs, k + 1);
    }
}

/// Depositing a product at health `h` (at most full health) changes at most the storages of
/// the product's element, each only by a gain `g` with `g * 10,000 <= a * h < g * 10,000 +
/// 10,000` for the nominal amount `a >= 0`: the product is the health fraction of the
/// nominal amount, rounded down.
pub proof fn law_converter_product_scaled(
    s: (Seq<(Entity, Storage)>, Seq<DomainErrorView>),
    req: RecipeIngredient,
    bs: Seq<Entity>,
    health: u16,
)
    requires
        health <= 10_000,
        req.amount.0 >= 0,
    ensures
        ({
            let r = deposit_req(s, req, bs, health).0;
            &&& r.len() == s.0.len()
            &&& forall|m: int|
                0 <= m < r.len() ==> #[trigger] r[m] == s.0[m] || ({
                    let g = r[m].1.current_amount.0 - s.0[m].1.current_amount.0;
                    &&& r[m].0 == s.0[m].0
                    &&& r[m].1.element_id == req.element_id
                    &&& g * 10_000 <= req.amount.0 * health < g * 10_000 + 10_000
                })
        }),
{
    law_yield_scales_with_health(req.amount.0, health);
    let y = yield_amount(req.amount.0, health);
    lemma_first_output_found_ok(s.0, req.element_id, y, bs, 0);
    if let Some(j) = first_output(s.0, req.element_id, y, bs, 0) {
        lemma_find_from(s.0, bs[j], 0);
        let i = find_first(s.0, bs[j]).unwrap();
        if let Ok(s2) = deposit_outcome(s.0[i].1, y) {
            let r = deposit_req(s, req, bs, health).0;
            assert(r == s.0.update(i, (s.0[i].0, s2)));
            assert(s2.current_amount.0 == s.0[i].1.current_amount.0 + y);
        }
    }
}

} // verus!
