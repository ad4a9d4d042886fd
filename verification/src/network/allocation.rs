//! Pro-rata rationing of a source's inventory across the demands drawn on it.

use vstd::prelude::*;
use super::components::Entity;
use super::resources::{EdgeAllocation, EdgeDemand};
use super::types::{ResourceAmount, in_i64, clamp_i64, ratio_ok, ratio_quotient, trunc_div};

verus! {

/// Sum of the requested amounts of a sequence of demands.
pub open spec fn sum_requested(ds: Seq<EdgeDemand>) -> int
    decreases ds.len(),
{
    if ds.len() == 0 {
        0
    } else {
        sum_requested(ds.drop_last()) + ds.last().requested_amount.0
    }
}

/// The pro-rata share `available * requested / total` (rounded toward zero),
/// or zero when that ratio cannot be computed.
pub open spec fn pro_rata_share(available: i64, requested: i64, total: i64) -> i64 {
    if ratio_ok(available, requested, total) {
        ratio_quotient(available, requested, total) as i64
    } else {
        0
    }
}

/// Sum of the pro-rata shares of a sequence of demands.
pub open spec fn sum_shares(available: i64, ds: Seq<EdgeDemand>, total: i64) -> int
    decreases ds.len(),
{
    if ds.len() == 0 {
        0
    } else {
        sum_shares(available, ds.drop_last(), total) + pro_rata_share(
            available,
            ds.last().requested_amount.0,
            total,
        )
    }
}

/// An allocation of `amount` to the edge of a demand.
pub open spec fn grant(d: EdgeDemand, amount: i64) -> EdgeAllocation {
    EdgeAllocation { edge_entity: d.edge_entity, allocated_amount: ResourceAmount(amount) }
}

/// The allocations given to a group of demands on one source holding `available`.
/// When the total demand fits, each demand is granted in full. Otherwise every demand
/// but the last gets its pro-rata share and the last gets what remains, at most its request.
pub open spec fn allocate_group(available: i64, ds: Seq<EdgeDemand>) -> Seq<EdgeAllocation> {
    let total = sum_requested(ds);
    if total <= available {
        ds.map_values(|d: EdgeDemand| grant(d, d.requested_amount.0))
    } else {
        Seq::new(
            ds.len(),
            |i: int|
                if i < ds.len() - 1 {
                    grant(ds[i], pro_rata_share(available, ds[i].requested_amount.0, total as i64))
                } else {
                    let rest = clamp_i64(available - sum_shares(available, ds.take(i), total as i64));
                    grant(ds[i], if rest <= ds[i].requested_amount.0 { rest } else { ds[i].requested_amount.0 })
                },
        )
    }
}

/// The running totals of an allocation stay within `i64`: the sums of requests,
/// and, when rationing, the sums of the shares granted before the last demand.
pub open spec fn allocation_arith_ok(available: i64, ds: Seq<EdgeDemand>) -> bool {
    &&& forall|k: int| 0 <= k <= ds.len() ==> #[trigger] in_i64(sum_requested(ds.take(k)))
    &&& sum_requested(ds) > available ==> forall|k: int|
        0 <= k < ds.len() ==> #[trigger] in_i64(sum_shares(available, ds.take(k), sum_requested(ds) as i64))
}

/// Total amount granted by a sequence of allocations.
pub open spec fn sum_allocated(a: Seq<EdgeAllocation>) -> int
    decreases a.len(),
{
    if a.len() == 0 {
        0
    } else {
        sum_allocated(a.drop_last()) + a.last().allocated_amount.0
    }
}

/// Decides `allocation_arith_ok`: whether allocating `available` across `demands` keeps
/// every running total within `i64`.
pub fn allocation_fits(available: ResourceAmount, demands: &Vec<EdgeDemand>) -> (r: bool)
    ensures
        r == allocation_arith_ok(available.0, demands@),
{
    let ghost ds = demands@;
    let n = demands.len();
    let mut total: i64 = 0;
    let mut i: usize = 0;
    while i < n
        invariant
            n == ds.len(),
            ds == demands@,
            0 <= i <= n,
            total == sum_requested(ds.take(i as int)),
            forall|k: int| 0 <= k <= i ==> #[trigger] in_i64(sum_requested(ds.take(k))),
        decreases n - i,
    {
        assert(ds.take(i + 1).drop_last() =~= ds.take(i as int));
        match total.checked_add(demands[i].requested_amount.0) {
            Some(t) => {
                total = t;
            },
            None => {
                assert(!in_i64(sum_requested(ds.take(i + 1))));
                return false;
            },
        }
        i = i + 1;
    }
    assert(ds.take(n as int) =~= ds);
    if total <= available.0 {
        return true;
    }
    let mut acc: i64 = 0;
    let mut j: usize = 0;
    while j + 1 < n
        invariant
            n == ds.len(),
            ds == demands@,
            0 <= j < n || (j == 0 && n == 0),
            total == sum_requested(ds),
            total > available.0,
            forall|k: int| 0 <= k <= ds.len() ==> #[trigger] in_i64(sum_requested(ds.take(k))),
            acc == sum_shares(available.0, ds.take(j as int), total),
            forall|k: int| 0 <= k <= j ==> #[trigger] in_i64(sum_shares(available.0, ds.take(k), total)),
        decreases n - j,
    {
        assert(ds.take(j + 1).drop_last() =~= ds.take(j as int));
        let share = match available.checked_mul_ratio(demands[j].requested_amount.0, total) {
            Ok(v) => v,
            Err(_) => ResourceAmount(0),
        };
        assert(share.0 == pro_rata_share(available.0, ds[j as int].requested_amount.0, total));
        match acc.checked_add(share.0) {
            Some(t) => {
                acc = t;
            },
            None => {
                proof {
                    assert(sum_requested(ds) as i64 == total);
                    assert(!in_i64(sum_shares(available.0, ds.take(j + 1), sum_requested(ds) as i64)));
                }
                return false;
            },
        }
        j = j + 1;
    }
    assert forall|k: int| 0 <= k < ds.len() implies #[trigger] in_i64(
        sum_shares(available.0, ds.take(k), total as i64),
    ) by {
        assert(k <= j);
    }
    true
}

/// Allocates `available` across `demands`, appending one allocation per demand in order.
pub fn allocate_demand_group(
    available: ResourceAmount,
    demands: &Vec<EdgeDemand>,
    allocations: &mut Vec<EdgeAllocation>,
)
    requires
        allocation_arith_ok(available.0, demands@),
    ensures
        final(allocations)@ == old(allocations)@ + allocate_group(available.0, demands@),
{
    let ghost ds = demands@;
    let n = demands.len();
    let mut total: i64 = 0;
    let mut i: usize = 0;
    while i < n
        invariant
            n == ds.len(),
            ds == demands@,
            0 <= i <= n,
            total == sum_requested(ds.take(i as int)),
            allocation_arith_ok(available.0, ds),
        decreases n - i,
    {
        assert(ds.take(i + 1).drop_last() =~= ds.take(i as int));
        assert(in_i64(sum_requested(ds.take(i + 1))));
        total = total + demands[i].requested_amount.0;
        i = i + 1;
    }
    assert(ds.take(n as int) =~= ds);
    let ghost start = allocations@;
    if total <= available.0 {
        let mut j: usize = 0;
        while j < n
            invariant
                n == ds.len(),
                ds == demands@,
                0 <= j <= n,
                allocations@ == start + ds.take(j as int).map_values(
                    |d: EdgeDemand| grant(d, d.requested_amount.0),
                ),
            decreases n - j,
        {
            let d = demands[j];
            allocations.push(EdgeAllocation { edge_entity: d.edge_entity, allocated_amount: d.requested_amount });
            assert(ds.take(j + 1).map_values(|d: EdgeDemand| grant(d, d.requested_amount.0)) =~= ds.take(
                j as int,
            ).map_values(|d: EdgeDemand| grant(d, d.requested_amount.0)).push(grant(d, d.requested_amount.0)));
            j = j + 1;
        }
        assert(ds.take(n as int) =~= ds);
        assert(allocations@ =~= start + allocate_group(available.0, ds));
        return;
    }
    let mut allocated_sum: i64 = 0;
    let mut j: usize = 0;
    while j < n
        invariant
            n == ds.len(),
            ds == demands@,
            0 <= j <= n,
            total == sum_requested(ds),
            total > available.0,
            allocation_arith_ok(available.0, ds),
            j < n ==> allocated_sum == sum_shares(available.0, ds.take(j as int), total),
            allocations@ == start + allocate_group(available.0, ds).take(j as int),
        decreases n - j,
    {
        let d = demands[j];
        if j == n - 1 {
            let remainder = available.saturating_sub(ResourceAmount(allocated_sum));
            let amount = remainder.min_amount(d.requested_amount);
            allocations.push(EdgeAllocation { edge_entity: d.edge_entity, allocated_amount: amount });
        } else {
            let share = match available.checked_mul_ratio(d.requested_amount.0, total) {
                Ok(s) => s,
                Err(_) => ResourceAmount(0),
            };
            assert(share.0 == pro_rata_share(available.0, d.requested_amount.0, total));
            assert(ds.take(j + 1).drop_last() =~= ds.take(j as int));
            assert(in_i64(sum_shares(available.0, ds.take(j + 1), total)));
            allocated_sum = allocated_sum + share.0;
            allocations.push(EdgeAllocation { edge_entity: d.edge_entity, allocated_amount: share });
        }
        assert(allocate_group(available.0, ds).take(j + 1) =~= allocate_group(available.0, ds).take(
            j as int,
        ).push(allocate_group(available.0, ds)[j as int]));
        j = j + 1;
    }
    assert(allocate_group(available.0, ds).take(n as int) =~= allocate_group(available.0, ds));
}

/// Every demand of the group asks for a strictly positive amount.
pub open spec fn all_positive(ds: Seq<EdgeDemand>) -> bool {
    forall|i: int| 0 <= i < ds.len() ==> #[trigger] ds[i].requested_amount.0 > 0
}

proof fn lemma_sum_requested_prefix(ds: Seq<EdgeDemand>, k: int)
    requires
        all_positive(ds),
        0 <= k <= ds.len(),
    ensures
        0 <= sum_requested(ds.take(k)) <= sum_requested(ds),
        k < ds.len() ==> sum_requested(ds.take(k)) + ds[k].requested_amount.0 <= sum_requested(ds),
    decreases ds.len() - k,
{
    assert(all_positive(ds.take(k)));
    lemma_sum_requested_nonneg(ds.take(k));
    if k < ds.len() {
        lemma_sum_requested_prefix(ds, k + 1);
        assert(ds.take(k + 1).drop_last() =~= ds.take(k));
    } else {
        assert(ds.take(k) =~= ds);
        lemma_sum_requested_nonneg(ds);
    }
}

proof fn lemma_sum_requested_nonneg(ds: Seq<EdgeDemand>)
    requires
        all_positive(ds),
    ensures
        sum_requested(ds) >= 0,
    decreases ds.len(),
{
    if ds.len() > 0 {
        assert(all_positive(ds.drop_last()));
        lemma_sum_requested_nonneg(ds.drop_last());
    }
}

proof fn lemma_share_bounds(a: i64, r: i64, t: i64)
    requires
        0 <= a < t,
        0 < r <= t,
    ensures
        pro_rata_share(a, r, t) as int * t <= a as int * r,
        a as int * r < (pro_rata_share(a, r, t) as int + 1) * t,
        0 <= pro_rata_share(a, r, t) <= r,
        pro_rata_share(a, r, t) <= a,
{
    let p = a as int * r as int;
    assert(0 <= p <= a as int * t as int) by (nonlinear_arith)
        requires
            0 <= a,
            0 < r <= t,
            p == a as int * r as int,
    ;
    let q = p / (t as int);
    vstd::arithmetic::div_mod::lemma_fundamental_div_mod(p, t as int);
    vstd::arithmetic::div_mod::lemma_mod_pos_bound(p, t as int);
    vstd::arithmetic::div_mod::lemma_div_pos_is_pos(p, t as int);
    assert(trunc_div(p, t as int) == q);
    assert(q <= a) by (nonlinear_arith)
        requires
            p == t * q + p % (t as int),
            0 <= p % (t as int),
            p <= a as int * t as int,
            t > 0,
    ;
    assert(q < r) by (nonlinear_arith)
        requires
            p == t * q + p % (t as int),
            0 <= p % (t as int),
            p == a as int * r as int,
            a < t,
            r > 0,
            t > 0,
    ;
    assert(ratio_quotient(a, r, t) == q);
    assert(ratio_ok(a, r, t));
    assert(q * t <= p) by (nonlinear_arith)
        requires
            p == t * q + p % (t as int),
            0 <= p % (t as int),
    ;
    assert(p < (q + 1) * t) by (nonlinear_arith)
        requires
            p == t * q + p % (t as int),
            p % (t as int) < t,
    ;
}

proof fn lemma_sum_shares_bounds(a: i64, ds: Seq<EdgeDemand>, t: i64, k: int)
    requires
        all_positive(ds),
        0 <= a < t,
        sum_requested(ds) == t,
        0 <= k <= ds.len(),
    ensures
        0 <= sum_shares(a, ds.take(k), t),
        sum_shares(a, ds.take(k), t) * t <= a as int * sum_requested(ds.take(k)),
        sum_shares(a, ds.take(k), t) <= a,
    decreases k,
{
    lemma_sum_requested_prefix(ds, k);
    if k > 0 {
        lemma_sum_shares_bounds(a, ds, t, k - 1);
        assert(ds.take(k).drop_last() =~= ds.take(k - 1));
        lemma_sum_requested_prefix(ds, k - 1);
        let r = ds[k - 1].requested_amount.0;
        assert(r > 0);
        lemma_share_bounds(a, r, t);
        let s0 = sum_shares(a, ds.take(k - 1), t);
        let q0 = sum_requested(ds.take(k - 1));
        let sh = pro_rata_share(a, r, t) as int;
        assert((s0 + sh) * t <= a as int * (q0 + r)) by (nonlinear_arith)
            requires
                s0 * t <= a as int * q0,
                sh * t <= a as int * r,
        ;
        assert(s0 + sh <= a) by (nonlinear_arith)
            requires
                (s0 + sh) * t <= a as int * (q0 + r),
                q0 + r <= t,
                t > 0,
                a >= 0,
        ;
    }
}

/// When the group's total demand fits in the source, every demand is granted in full.
pub proof fn law_full_grant_when_demand_fits(available: i64, ds: Seq<EdgeDemand>)
    requires
        sum_requested(ds) <= available,
    ensures
        allocate_group(available, ds).len() == ds.len(),
        forall|i: int|
            0 <= i < ds.len() ==> #[trigger] allocate_group(available, ds)[i] == grant(
                ds[i],
                ds[i].requested_amount.0,
            ),
{
}

/// With positive requests and a non-negative stock whose total request fits in `i64`,
/// the running totals never overflow, every edge gets between zero and its request,
/// and the source is never asked for more than it holds.
pub proof fn law_rationing_never_overdraws(available: i64, ds: Seq<EdgeDemand>)
    requires
        all_positive(ds),
        available >= 0,
        in_i64(sum_requested(ds)),
    ensures
        allocation_arith_ok(available, ds),
        allocate_group(available, ds).len() == ds.len(),
        forall|i: int|
            0 <= i < ds.len() ==> 0 <= #[trigger] allocate_group(available, ds)[i].allocated_amount.0
                <= ds[i].requested_amount.0,
        forall|i: int|
            0 <= i < ds.len() ==> #[trigger] allocate_group(available, ds)[i].edge_entity == ds[i].edge_entity,
        sum_allocated(allocate_group(available, ds)) <= available,
        sum_allocated(allocate_group(available, ds)) <= sum_requested(ds),
{
    let t = sum_requested(ds);
    let g = allocate_group(available, ds);
    assert forall|k: int| 0 <= k <= ds.len() implies #[trigger] in_i64(sum_requested(ds.take(k))) by {
        lemma_sum_requested_prefix(ds, k);
    }
    lemma_sum_requested_nonneg(ds);
    if t <= available {
        lemma_sum_allocated_full(ds, ds.len() as int);
        assert(g =~= ds.map_values(|d: EdgeDemand| grant(d, d.requested_amount.0)));
        assert(g.take(ds.len() as int) =~= g);
        assert(ds.take(ds.len() as int) =~= ds);
        assert forall|i: int| 0 <= i < ds.len() implies 0 <= #[trigger] g[i].allocated_amount.0
            <= ds[i].requested_amount.0 by {
            assert(ds[i].requested_amount.0 > 0);
        }
    } else {
        let ti = t as i64;
        assert forall|k: int| 0 <= k < ds.len() implies #[trigger] in_i64(
            sum_shares(available, ds.take(k), ti),
        ) by {
            lemma_sum_shares_bounds(available, ds, ti, k);
        }
        assert forall|i: int| 0 <= i < ds.len() implies 0 <= #[trigger] g[i].allocated_amount.0
            <= ds[i].requested_amount.0 by {
            lemma_sum_requested_prefix(ds, i);
            if i < ds.len() - 1 {
                lemma_share_bounds(available, ds[i].requested_amount.0, ti);
            } else {
                lemma_sum_shares_bounds(available, ds, ti, i);
            }
        }
        if ds.len() > 0 {
            let n = ds.len() as int;
            lemma_sum_allocated_rationed(available, ds, n - 1);
            lemma_sum_shares_bounds(available, ds, ti, n - 1);
            assert(g.take(n).drop_last() =~= g.take(n - 1));
            assert(g.take(n) =~= g);
            assert(g.drop_last() =~= g.take(n - 1));
            lemma_sum_requested_prefix(ds, n - 1);
            assert(ds.take(n).drop_last() =~= ds.take(n - 1));
            assert(ds.take(n) =~= ds);
            lemma_sum_shares_le_requested(available, ds, ti, n - 1);
        }
    }
}

/// Rationing is pro rata: when a source holding `available >= 0` cannot meet the group's
/// positive requests totalling `t`, every demand but the last is granted
/// `available * requested / t` rounded down (the share `x` with `x * t <= available *
/// requested < (x + 1) * t`), and the last is granted what remains of the stock after the
/// others' shares, at most its request.
pub proof fn law_rationing_is_pro_rata(available: i64, ds: Seq<EdgeDemand>)
    requires
        all_positive(ds),
        available >= 0,
        in_i64(sum_requested(ds)),
        sum_requested(ds) > available,
    ensures
        allocate_group(available, ds).len() == ds.len(),
        forall|i: int|
            0 <= i < ds.len() - 1 ==> (#[trigger] allocate_group(available, ds)[i]).allocated_amount.0 as int
                * sum_requested(ds) <= available as int * ds[i].requested_amount.0 && available as int
                * ds[i].requested_amount.0 < (allocate_group(available, ds)[i].allocated_amount.0 as int + 1)
                * sum_requested(ds),
        ds.len() > 0 ==> allocate_group(available, ds)[ds.len() - 1].allocated_amount.0 == if available
            - sum_allocated(allocate_group(available, ds).take(ds.len() - 1)) <= ds[ds.len() - 1].requested_amount.0 {
            available - sum_allocated(allocate_group(available, ds).take(ds.len() - 1))
        } else {
            ds[ds.len() - 1].requested_amount.0 as int
        },
{
    let t = sum_requested(ds) as i64;
    let g = allocate_group(available, ds);
    assert forall|i: int| 0 <= i < ds.len() - 1 implies (#[trigger] g[i]).allocated_amount.0 as int
        * sum_requested(ds) <= available as int * ds[i].requested_amount.0 && available as int
        * ds[i].requested_amount.0 < (g[i].allocated_amount.0 as int + 1) * sum_requested(ds) by {
        assert(ds[i].requested_amount.0 > 0);
        lemma_sum_requested_prefix(ds, i);
        lemma_share_bounds(available, ds[i].requested_amount.0, t);
    }
    if ds.len() > 0 {
        let n = ds.len() as int;
        law_rationing_never_overdraws(available, ds);
        lemma_sum_allocated_rationed(available, ds, n - 1);
        lemma_sum_shares_bounds(available, ds, t, n - 1);
    }
}

proof fn lemma_sum_shares_le_requested(a: i64, ds: Seq<EdgeDemand>, t: i64, k: int)
    requires
        all_positive(ds),
        0 <= a < t,
        sum_requested(ds) == t,
        0 <= k <= ds.len(),
    ensures
        sum_shares(a, ds.take(k), t) <= sum_requested(ds.take(k)),
    decreases k,
{
    if k > 0 {
        lemma_sum_shares_le_requested(a, ds, t, k - 1);
        assert(ds.take(k).drop_last() =~= ds.take(k - 1));
        lemma_sum_requested_prefix(ds, k - 1);
        lemma_share_bounds(a, ds[k - 1].requested_amount.0, t);
    }
}

proof fn lemma_sum_allocated_full(ds: Seq<EdgeDemand>, k: int)
    requires
        0 <= k <= ds.len(),
    ensures
        sum_allocated(ds.map_values(|d: EdgeDemand| grant(d, d.requested_amount.0)).take(k)) == sum_requested(
            ds.take(k),
        ),
    decreases k,
{
    let m = ds.map_values(|d: EdgeDemand| grant(d, d.requested_amount.0));
    if k > 0 {
        lemma_sum_allocated_full(ds, k - 1);
        assert(m.take(k).drop_last() =~= m.take(k - 1));
        assert(ds.take(k).drop_last() =~= ds.take(k - 1));
    }
}

proof fn lemma_sum_allocated_rationed(available: i64, ds: Seq<EdgeDemand>, k: int)
    requires
        sum_requested(ds) > available,
        0 <= k < ds.len(),
    ensures
        sum_allocated(allocate_group(available, ds).take(k)) == sum_shares(
            available,
            ds.take(k),
            sum_requested(ds) as i64,
        ),
    decreases k,
{
    let g = allocate_group(available, ds);
    if k > 0 {
        lemma_sum_allocated_rationed(available, ds, k - 1);
        assert(g.take(k).drop_last() =~= g.take(k - 1));
        assert(ds.take(k).drop_last() =~= ds.take(k - 1));
    }
}

} // verus!
