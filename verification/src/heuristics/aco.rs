//! The ant-colony search engine: pheromone-guided stochastic route
//! construction with reinforcement, evaporation and stagnation resets.
//!
//! All quantities are fixed-point integers in millionths. Locations are
//! addressed by a stable arena index assigned at engine start: customers
//! keep their position in the instance's customer list and the depot is the
//! last index, so the pheromone state is a dense `m * m` vector over all
//! ordered location pairs.

use crate::location::{Location, MAX_COST_STEP};
use vstd::prelude::*;

verus! {

/// One, in the fixed-point scale: rates, probabilities and pheromone
/// values are integers in millionths.
pub const FIXED_ONE: u64 = 1000000;

/// Ceiling on every stored pheromone value; deposits saturate here, which
/// keeps all pheromone arithmetic inside `u64`.
pub const TAU_CAP: u64 = 1000000000000;

/// Largest admissible uniform baseline: a reset stays strictly below the
/// ceiling even after a best-solution deposit on an edge.
pub const MAX_BASELINE: u64 = 999999000000;

/// Ceiling on a single candidate weight in the sampling distribution.
pub const WEIGHT_CAP: u64 = 4294967295;

/// Parameters of one ant-colony run.
#[derive(Clone, Copy, Debug, PartialEq, Eq, Structural)]
pub struct AcoParams {
    /// Number of independent construction trials per iteration.
    pub n_ants: u16,
    /// Number of iterations to run.
    pub max_iter: u16,
    /// Stagnation threshold: consecutive iterations without improvement
    /// that trigger a pheromone reset.
    pub max_r: u16,
    /// Importance of pheromone when choosing the next location.
    pub alpha: u16,
    /// Importance of arrival cost when choosing the next location.
    pub beta: u16,
    /// Evaporation rate in millionths, strictly between 0 and one million.
    pub rho: u32,
    /// Exploitation probability in millionths, at most one million.
    pub q0: u32,
    /// Uniform baseline pheromone value in millionths.
    pub pheromone_amt: u64,
    /// Seed of the run's own deterministic generator.
    pub seed: u64,
}

impl AcoParams {
    /// The configuration surface the engine accepts.
    pub open spec fn spec_valid(self) -> bool {
        &&& self.n_ants >= 1
        &&& self.max_iter >= 1
        &&& self.max_r >= 1
        &&& 0 < self.rho < FIXED_ONE
        &&& self.q0 <= FIXED_ONE
        &&& 1 <= self.pheromone_amt <= MAX_BASELINE
    }
}

impl Default for AcoParams {
    /// Fifty ants over two hundred iterations, evaporation a tenth, no
    /// exploitation split, a stagnation threshold of twenty-five, and a
    /// baseline of one eight-thousandth.
    fn default() -> (p: AcoParams)
        ensures
            p == (AcoParams {
                n_ants: 50,
                max_iter: 200,
                max_r: 25,
                alpha: 1,
                beta: 1,
                rho: 100000,
                q0: 0,
                pheromone_amt: 125,
                seed: 0,
            }),
            p.spec_valid(),
    {
        AcoParams {
            n_ants: 50,
            max_iter: 200,
            max_r: 25,
            alpha: 1,
            beta: 1,
            rho: 100000,
            q0: 0,
            pheromone_amt: 125,
            seed: 0,
        }
    }
}

/// Clamp to a minimum of one, so that a reciprocal or a division never sees
/// zero.
pub open spec fn spec_pos(c: int) -> int {
    if c < 1 {
        1
    } else {
        c
    }
}

/// Flat index of the directed edge from location index `a` to `b` in an
/// `m * m` pheromone vector.
pub open spec fn spec_edge_idx(m: int, a: int, b: int) -> int {
    a * m + b
}

/// A well-formed pheromone state over `m` locations: one entry per ordered
/// pair, every entry at most the ceiling.
pub open spec fn spec_tau_wf(tau: Seq<u64>, m: int) -> bool {
    tau.len() == m * m && forall|k: int| 0 <= k < tau.len() ==> tau[k] <= TAU_CAP
}

/// The uniform pheromone state at the given baseline.
pub open spec fn spec_uniform_tau(m: int, baseline: u64) -> Seq<u64> {
    Seq::new((m * m) as nat, |k: int| baseline)
}

/// Every entry decayed by the factor `(FIXED_ONE - rho) / FIXED_ONE`.
pub open spec fn spec_evaporated(tau: Seq<u64>, rho: int) -> Seq<u64> {
    Seq::new(tau.len(), |k: int| (tau[k] * (FIXED_ONE - rho) / (FIXED_ONE as int)) as u64)
}

/// One deposit of `amount` on entry `k`, saturating at the ceiling.
pub open spec fn spec_tau_add(tau: Seq<u64>, k: int, amount: int) -> Seq<u64> {
    if 0 <= k < tau.len() {
        tau.update(
            k,
            if tau[k] + amount > TAU_CAP {
                TAU_CAP
            } else {
                (tau[k] + amount) as u64
            },
        )
    } else {
        tau
    }
}

/// Deposits of `amount` on every edge of the list, in order.
pub open spec fn spec_deposited(tau: Seq<u64>, edges: Seq<int>, amount: int) -> Seq<u64>
    decreases edges.len(),
{
    if edges.len() == 0 {
        tau
    } else {
        spec_deposited(spec_tau_add(tau, edges[0], amount), edges.drop_first(), amount)
    }
}

/// The directed edges of a path that starts at `from`, visits `rest` in
/// order, and returns to the depot (index `m - 1`).
pub open spec fn spec_path_edges(m: int, from: int, rest: Seq<usize>) -> Seq<int>
    decreases rest.len(),
{
    if rest.len() == 0 {
        seq![spec_edge_idx(m, from, m - 1)]
    } else {
        seq![spec_edge_idx(m, from, rest[0] as int)] + spec_path_edges(
            m,
            rest[0] as int,
            rest.drop_first(),
        )
    }
}

/// The directed edges used by a route, depot legs included; an empty route
/// uses no edge.
pub open spec fn spec_route_edges(m: int, route: Seq<usize>) -> Seq<int> {
    if route.len() == 0 {
        Seq::<int>::empty()
    } else {
        spec_path_edges(m, m - 1, route)
    }
}

/// The directed edges used by a whole solution, routes in order.
pub open spec fn spec_solution_edges(m: int, routes: Seq<Seq<usize>>) -> Seq<int>
    decreases routes.len(),
{
    if routes.len() == 0 {
        Seq::<int>::empty()
    } else {
        spec_route_edges(m, routes[0]) + spec_solution_edges(m, routes.drop_first())
    }
}

/// How many times edge `k` occurs in the list.
pub open spec fn spec_edge_count(edges: Seq<int>, k: int) -> int
    decreases edges.len(),
{
    if edges.len() == 0 {
        0
    } else {
        spec_edge_count(edges.drop_first(), k) + if edges[0] == k {
            1int
        } else {
            0int
        }
    }
}

/// The pheromone state after a stagnation reset: the uniform baseline,
/// reinforced along the best-known solution's edges.
pub open spec fn spec_reset_tau(
    m: int,
    baseline: u64,
    best_routes: Seq<Seq<usize>>,
    amount: int,
) -> Seq<u64> {
    spec_deposited(spec_uniform_tau(m, baseline), spec_solution_edges(m, best_routes), amount)
}

/// Evaporation never raises an entry, and keeps the state well-formed.
pub proof fn lemma_evaporated_wf(tau: Seq<u64>, m: int, rho: int)
    requires
        spec_tau_wf(tau, m),
        0 < rho < FIXED_ONE,
    ensures
        spec_tau_wf(spec_evaporated(tau, rho), m),
        forall|k: int|
            0 <= k < tau.len() ==> #[trigger] spec_evaporated(tau, rho)[k] <= tau[k],
{
    assert forall|k: int| 0 <= k < tau.len() implies #[trigger] spec_evaporated(tau, rho)[k]
        <= tau[k] by {
        let v = tau[k] as int;
        assert(v * (FIXED_ONE - rho) / (FIXED_ONE as int) <= v) by (nonlinear_arith)
            requires
                0 <= v,
                0 < rho < FIXED_ONE;
    }
}

/// Deposits keep the state well-formed: every entry stays between 0 and
/// the ceiling.
pub proof fn lemma_deposited_wf(tau: Seq<u64>, m: int, edges: Seq<int>, amount: int)
    requires
        spec_tau_wf(tau, m),
        amount >= 0,
    ensures
        spec_tau_wf(spec_deposited(tau, edges, amount), m),
    decreases edges.len(),
{
    if edges.len() > 0 {
        lemma_deposited_wf(spec_tau_add(tau, edges[0], amount), m, edges.drop_first(), amount);
    }
}

pub proof fn lemma_edge_count_nonneg(edges: Seq<int>, k: int)
    ensures
        spec_edge_count(edges, k) >= 0,
    decreases edges.len(),
{
    if edges.len() > 0 {
        lemma_edge_count_nonneg(edges.drop_first(), k);
    }
}

/// A deposit pass changes each entry by exactly its occurrence count times
/// the amount, as long as no entry saturates at the ceiling.
pub proof fn lemma_deposited_pointwise(tau: Seq<u64>, edges: Seq<int>, amount: int)
    requires
        amount >= 0,
        forall|k: int|
            0 <= k < tau.len() ==> tau[k] + spec_edge_count(edges, k) * amount <= TAU_CAP,
    ensures
        spec_deposited(tau, edges, amount).len() == tau.len(),
        forall|k: int|
            0 <= k < tau.len() ==> #[trigger] spec_deposited(tau, edges, amount)[k] == tau[k]
                + spec_edge_count(edges, k) * amount,
    decreases edges.len(),
{
    if edges.len() > 0 {
        let e = edges[0];
        let tau2 = spec_tau_add(tau, e, amount);
        assert forall|k: int|
            0 <= k < tau2.len() implies tau2[k] + spec_edge_count(edges.drop_first(), k) * amount
            <= TAU_CAP by {
            lemma_edge_count_nonneg(edges.drop_first(), k);
            assert(spec_edge_count(edges, k) == spec_edge_count(edges.drop_first(), k) + if e == k {
                1int
            } else {
                0int
            });
            if e == k {
                assert(tau[k] + (spec_edge_count(edges.drop_first(), k) + 1) * amount <= TAU_CAP);
                assert((spec_edge_count(edges.drop_first(), k) + 1) * amount == spec_edge_count(
                    edges.drop_first(),
                    k,
                ) * amount + amount) by (nonlinear_arith);
                assert(spec_edge_count(edges.drop_first(), k) * amount >= 0) by (nonlinear_arith)
                    requires
                        spec_edge_count(edges.drop_first(), k) >= 0,
                        amount >= 0;
                assert(tau2[k] == tau[k] + amount);
            }
        }
        lemma_deposited_pointwise(tau2, edges.drop_first(), amount);
        assert forall|k: int| 0 <= k < tau.len() implies #[trigger] spec_deposited(
            tau,
            edges,
            amount,
        )[k] == tau[k] + spec_edge_count(edges, k) * amount by {
            lemma_edge_count_nonneg(edges.drop_first(), k);
            assert(spec_deposited(tau, edges, amount)[k] == tau2[k] + spec_edge_count(
                edges.drop_first(),
                k,
            ) * amount);
            if e == k {
                assert((spec_edge_count(edges.drop_first(), k) + 1) * amount == spec_edge_count(
                    edges.drop_first(),
                    k,
                ) * amount + amount) by (nonlinear_arith);
                assert(spec_edge_count(edges.drop_first(), k) * amount >= 0) by (nonlinear_arith)
                    requires
                        spec_edge_count(edges.drop_first(), k) >= 0,
                        amount >= 0;
                assert(tau2[k] == tau[k] + amount);
            }
        }
    }
}

/// After a stagnation reset the pheromone state differs from a bare
/// reinitialization by exactly the reinforcement deposits for the
/// best-known solution's edges, provided no entry saturates.
pub proof fn lemma_reset_is_reinforced_baseline(
    m: int,
    baseline: u64,
    best_routes: Seq<Seq<usize>>,
    amount: int,
)
    requires
        0 <= amount,
        forall|k: int|
            0 <= k < m * m ==> baseline + spec_edge_count(
                spec_solution_edges(m, best_routes),
                k,
            ) * amount <= TAU_CAP,
    ensures
        forall|k: int|
            0 <= k < m * m ==> #[trigger] spec_reset_tau(m, baseline, best_routes, amount)[k]
                == baseline + spec_edge_count(spec_solution_edges(m, best_routes), k) * amount,
{
    assert(m * m >= 0) by (nonlinear_arith);
    lemma_deposited_pointwise(
        spec_uniform_tau(m, baseline),
        spec_solution_edges(m, best_routes),
        amount,
    );
}

/// A penalizing pass keeps the state well-formed.
pub proof fn lemma_penalized_wf(
    tau: Seq<u64>,
    m: int,
    trials: Seq<(Seq<Seq<usize>>, Seq<usize>)>,
    amount: int,
)
    requires
        spec_tau_wf(tau, m),
        amount >= 0,
    ensures
        spec_tau_wf(spec_penalized(tau, m, trials, amount), m),
    decreases trials.len(),
{
    if trials.len() > 0 {
        lemma_deposited_wf(tau, m, spec_solution_edges(m, trials[0].0), amount);
        lemma_penalized_wf(
            spec_deposited(tau, spec_solution_edges(m, trials[0].0), amount),
            m,
            trials.drop_first(),
            amount,
        );
    }
}

/// After one evaporate, reinforce and penalize cycle — the engine's
/// per-iteration pheromone update — every pheromone entry is non-negative
/// and within the ceiling: evaporation scales down and deposits saturate.
pub proof fn lemma_update_entries_bounded(
    tau: Seq<u64>,
    m: int,
    rho: int,
    edges_best: Seq<int>,
    amount_best: int,
    trials: Seq<(Seq<Seq<usize>>, Seq<usize>)>,
    amount_all: int,
)
    requires
        spec_tau_wf(tau, m),
        0 < rho < FIXED_ONE,
        amount_best >= 0,
        amount_all >= 0,
    ensures
        ({
            let updated = spec_penalized(
                spec_deposited(spec_evaporated(tau, rho), edges_best, amount_best),
                m,
                trials,
                amount_all,
            );
            spec_tau_wf(updated, m) && forall|k: int|
                0 <= k < updated.len() ==> 0 <= #[trigger] updated[k] <= TAU_CAP
        }),
{
    lemma_evaporated_wf(tau, m, rho);
    lemma_deposited_wf(spec_evaporated(tau, rho), m, edges_best, amount_best);
    lemma_penalized_wf(
        spec_deposited(spec_evaporated(tau, rho), edges_best, amount_best),
        m,
        trials,
        amount_all,
    );
}

/// A fresh uniform pheromone state over `m` locations.
pub fn uniform_pheromones(m: usize, baseline: u64) -> (tau: Vec<u64>)
    requires
        1 <= m <= 65535,
        baseline <= MAX_BASELINE,
    ensures
        tau@ == spec_uniform_tau(m as int, baseline),
        spec_tau_wf(tau@, m as int),
{
    proof {
        assert(m * m <= 65535 * 65535) by (nonlinear_arith)
            requires
                m <= 65535;
    }
    let size: usize = m * m;
    let mut tau: Vec<u64> = Vec::new();
    for k in 0..size
        invariant
            size == m * m,
            m <= 65535,
            baseline <= MAX_BASELINE,
            tau@.len() == k,
            forall|j: int| 0 <= j < k ==> tau@[j] == baseline,
    {
        tau.push(baseline);
    }
    proof {
        assert(tau@ =~= spec_uniform_tau(m as int, baseline));
    }
    tau
}

/// Decay every entry by the factor `(FIXED_ONE - rho) / FIXED_ONE`.
pub fn evaporate(tau: &mut Vec<u64>, rho: u32)
    requires
        forall|k: int| 0 <= k < old(tau)@.len() ==> old(tau)@[k] <= TAU_CAP,
        0 < rho < FIXED_ONE,
    ensures
        final(tau)@ == spec_evaporated(old(tau)@, rho as int),
{
    let n: usize = tau.len();
    for k in 0..n
        invariant
            n == tau@.len(),
            tau@.len() == old(tau)@.len(),
            0 < rho < FIXED_ONE,
            forall|j: int| 0 <= j < old(tau)@.len() ==> old(tau)@[j] <= TAU_CAP,
            forall|j: int| k <= j < n ==> tau@[j] == old(tau)@[j],
            forall|j: int|
                0 <= j < k ==> tau@[j] == spec_evaporated(old(tau)@, rho as int)[j],
    {
        let v: u64 = tau[k];
        proof {
            assert(v * (FIXED_ONE - rho) <= TAU_CAP * FIXED_ONE) by (nonlinear_arith)
                requires
                    v <= TAU_CAP,
                    0 < rho < FIXED_ONE;
        }
        let decayed: u64 = v * (FIXED_ONE - rho as u64) / FIXED_ONE;
        tau.set(k, decayed);
    }
    proof {
        assert(final(tau)@ =~= spec_evaporated(old(tau)@, rho as int));
    }
}

/// Sequential deposits distribute over list concatenation.
pub proof fn lemma_deposited_concat(tau: Seq<u64>, e1: Seq<int>, e2: Seq<int>, amount: int)
    ensures
        spec_deposited(tau, e1 + e2, amount) == spec_deposited(
            spec_deposited(tau, e1, amount),
            e2,
            amount,
        ),
    decreases e1.len(),
{
    if e1.len() == 0 {
        assert(e1 + e2 =~= e2);
    } else {
        assert((e1 + e2)[0] == e1[0]);
        assert((e1 + e2).drop_first() =~= e1.drop_first() + e2);
        lemma_deposited_concat(spec_tau_add(tau, e1[0], amount), e1.drop_first(), e2, amount);
    }
}

/// Deposit `amount` on the edge from `a` to `b`, saturating at the
/// ceiling.
fn deposit_edge(tau: &mut Vec<u64>, m: usize, a: usize, b: usize, amount: u64)
    requires
        old(tau)@.len() == m * m,
        forall|k: int| 0 <= k < old(tau)@.len() ==> old(tau)@[k] <= TAU_CAP,
        a < m,
        b < m,
        m <= 65535,
        amount <= TAU_CAP,
    ensures
        final(tau)@ == spec_tau_add(old(tau)@, spec_edge_idx(m as int, a as int, b as int), amount as int),
{
    proof {
        assert(a * m + b < m * m) by (nonlinear_arith)
            requires
                a < m,
                b < m;
        assert(m * m <= 65535 * 65535) by (nonlinear_arith)
            requires
                m <= 65535;
    }
    let k: usize = a * m + b;
    let v: u64 = tau[k];
    let raised: u64 = if v > TAU_CAP - amount {
        TAU_CAP
    } else {
        v + amount
    };
    tau.set(k, raised);
}

/// Every index of a route names a customer: it is below `m - 1`.
pub open spec fn spec_route_indices_wf(route: Seq<usize>, m: int) -> bool {
    forall|j: int| 0 <= j < route.len() ==> (#[trigger] route[j]) < m - 1
}

/// Every route of the solution is within the index bound.
pub open spec fn spec_solution_indices_wf(routes: Seq<Seq<usize>>, m: int) -> bool {
    forall|i: int| 0 <= i < routes.len() ==> spec_route_indices_wf(#[trigger] routes[i], m)
}

/// Deposit `amount` on every edge of the route, depot legs included.
pub fn deposit_route(tau: &mut Vec<u64>, m: usize, route: &Vec<usize>, amount: u64)
    requires
        old(tau)@.len() == m * m,
        forall|k: int| 0 <= k < old(tau)@.len() ==> old(tau)@[k] <= TAU_CAP,
        spec_route_indices_wf(route@, m as int),
        1 <= m <= 65535,
        amount <= TAU_CAP,
    ensures
        final(tau)@ == spec_deposited(old(tau)@, spec_route_edges(m as int, route@), amount as int),
        final(tau)@.len() == old(tau)@.len(),
        forall|k: int| 0 <= k < final(tau)@.len() ==> final(tau)@[k] <= TAU_CAP,
    decreases route@.len(),
{
    let n: usize = route.len();
    if n == 0 {
        return ;
    }
    let mut from: usize = m - 1;
    proof {
        assert(route@.skip(0) =~= route@);
    }
    for j in 0..n
        invariant
            n == route@.len(),
            tau@.len() == m * m == old(tau)@.len(),
            forall|k: int| 0 <= k < tau@.len() ==> tau@[k] <= TAU_CAP,
            spec_route_indices_wf(route@, m as int),
            1 <= m <= 65535,
            amount <= TAU_CAP,
            from < m,
            spec_deposited(old(tau)@, spec_path_edges(m as int, m - 1, route@), amount as int)
                == spec_deposited(
                tau@,
                spec_path_edges(m as int, from as int, route@.skip(j as int)),
                amount as int,
            ),
    {
        let next: usize = route[j];
        proof {
            let sk = route@.skip(j as int);
            let e = spec_edge_idx(m as int, from as int, next as int);
            let tail = spec_path_edges(m as int, next as int, sk.drop_first());
            assert(sk[0] == next);
            assert((seq![e] + tail)[0] == e);
            assert((seq![e] + tail).drop_first() =~= tail);
            assert(sk.drop_first() =~= route@.skip(j + 1));
        }
        deposit_edge(tau, m, from, next, amount);
        from = next;
    }
    proof {
        assert(route@.skip(n as int) =~= Seq::<usize>::empty());
        assert(spec_route_edges(m as int, route@) == spec_path_edges(m as int, m - 1, route@));
    }
    let ghost pre = tau@;
    deposit_edge(tau, m, from, m - 1, amount);
    proof {
        let e = spec_edge_idx(m as int, from as int, m - 1);
        assert(seq![e][0] == e);
        assert(seq![e].drop_first() =~= Seq::<int>::empty());
        assert(spec_deposited(spec_tau_add(pre, e, amount as int), Seq::<int>::empty(), amount as int)
            == spec_tau_add(pre, e, amount as int));
        assert(spec_deposited(pre, seq![e], amount as int) == spec_tau_add(pre, e, amount as int));
    }
}

/// Deposit `amount` on every edge used by the solution, routes in order.
pub fn deposit_solution(tau: &mut Vec<u64>, m: usize, routes: &Vec<Vec<usize>>, amount: u64)
    requires
        old(tau)@.len() == m * m,
        forall|k: int| 0 <= k < old(tau)@.len() ==> old(tau)@[k] <= TAU_CAP,
        spec_solution_indices_wf(routes@.map_values(|r: Vec<usize>| r@), m as int),
        1 <= m <= 65535,
        amount <= TAU_CAP,
    ensures
        final(tau)@ == spec_deposited(
            old(tau)@,
            spec_solution_edges(m as int, routes@.map_values(|r: Vec<usize>| r@)),
            amount as int,
        ),
        final(tau)@.len() == old(tau)@.len(),
        forall|k: int| 0 <= k < final(tau)@.len() ==> final(tau)@[k] <= TAU_CAP,
{
    let ghost all = routes@.map_values(|r: Vec<usize>| r@);
    let n: usize = routes.len();
    proof {
        assert(all.skip(0) =~= all);
    }
    for i in 0..n
        invariant
            n == routes@.len(),
            all == routes@.map_values(|r: Vec<usize>| r@),
            tau@.len() == m * m == old(tau)@.len(),
            forall|k: int| 0 <= k < tau@.len() ==> tau@[k] <= TAU_CAP,
            spec_solution_indices_wf(all, m as int),
            1 <= m <= 65535,
            amount <= TAU_CAP,
            spec_deposited(old(tau)@, spec_solution_edges(m as int, all), amount as int)
                == spec_deposited(
                tau@,
                spec_solution_edges(m as int, all.skip(i as int)),
                amount as int,
            ),
    {
        let route: &Vec<usize> = &routes[i];
        proof {
            let sk = all.skip(i as int);
            assert(sk[0] == route@);
            assert(sk.drop_first() =~= all.skip(i + 1));
            lemma_deposited_concat(
                tau@,
                spec_route_edges(m as int, route@),
                spec_solution_edges(m as int, all.skip(i + 1)),
                amount as int,
            );
        }
        deposit_route(tau, m, route, amount);
    }
    proof {
        assert(all.skip(n as int) =~= Seq::<Seq<usize>>::empty());
    }
}

/// The location behind an arena index: a customer by position, or the
/// depot for any index past the customer list.
pub open spec fn spec_loc_of(warehouse: Location, customers: Seq<Location>, i: int) -> Location {
    if 0 <= i < customers.len() {
        customers[i]
    } else {
        warehouse
    }
}

/// The indices among `unvisited` whose customer can be served next from
/// location index `current`: reachable within its due date, demand within
/// the remaining capacity.
pub open spec fn spec_deliverable_idx(
    warehouse: Location,
    customers: Seq<Location>,
    current: int,
    unvisited: Seq<usize>,
    cost: int,
    remaining_capacity: int,
) -> Seq<usize>
    decreases unvisited.len(),
{
    if unvisited.len() == 0 {
        Seq::<usize>::empty()
    } else {
        let prefix = spec_deliverable_idx(
            warehouse,
            customers,
            current,
            unvisited.drop_last(),
            cost,
            remaining_capacity,
        );
        let from = spec_loc_of(warehouse, customers, current);
        let to = spec_loc_of(warehouse, customers, unvisited.last() as int);
        if cost + from.spec_distance(to) <= to.due_date && to.demand <= remaining_capacity {
            prefix.push(unvisited.last())
        } else {
            prefix
        }
    }
}

/// Position of the deliverable candidate of least arrival cost from
/// `current`; ties are broken in favour of the earliest candidate.
pub open spec fn spec_cheapest_of_idx(
    warehouse: Location,
    customers: Seq<Location>,
    current: int,
    d: Seq<usize>,
    cost: int,
) -> int
    decreases d.len(),
{
    if d.len() <= 1 {
        0
    } else {
        let j = spec_cheapest_of_idx(warehouse, customers, current, d.drop_last(), cost);
        let from = spec_loc_of(warehouse, customers, current);
        if from.spec_arrival_cost(spec_loc_of(warehouse, customers, d.last() as int), cost, true)
            < from.spec_arrival_cost(spec_loc_of(warehouse, customers, d[j] as int), cost, true) {
            d.len() - 1
        } else {
            j
        }
    }
}

/// Exponentiation that saturates at `WEIGHT_CAP`.
pub open spec fn spec_pow_capped(base: int, e: nat) -> int
    decreases e,
{
    if e == 0 {
        1
    } else {
        let p = spec_pow_capped(base, (e - 1) as nat);
        let q = base * p;
        if q > WEIGHT_CAP {
            WEIGHT_CAP as int
        } else {
            q
        }
    }
}

pub proof fn lemma_pow_capped_bounds(base: int, e: nat)
    requires
        base >= 0,
    ensures
        0 <= spec_pow_capped(base, e) <= WEIGHT_CAP,
    decreases e,
{
    if e > 0 {
        lemma_pow_capped_bounds(base, (e - 1) as nat);
        assert(base * spec_pow_capped(base, (e - 1) as nat) >= 0) by (nonlinear_arith)
            requires
                base >= 0,
                spec_pow_capped(base, (e - 1) as nat) >= 0;
    }
}

/// The sampling weight of one candidate: pheromone to the power `alpha`
/// times fixed-point desirability to the power `beta`, plus one so that
/// every candidate keeps a strictly positive weight, saturating at
/// `WEIGHT_CAP`. The desirability is the fixed-point reciprocal of the cost
/// increment, whose divisor is clamped to at least one.
pub open spec fn spec_weight(tau_entry: int, delta: int, alpha: nat, beta: nat) -> int {
    let tp = spec_pow_capped(tau_entry, alpha);
    let dp = spec_pow_capped((FIXED_ONE as int) / spec_pos(delta), beta);
    let w = tp * dp + 1;
    if w > WEIGHT_CAP {
        WEIGHT_CAP as int
    } else {
        w
    }
}

pub proof fn lemma_weight_bounds(tau_entry: int, delta: int, alpha: nat, beta: nat)
    requires
        tau_entry >= 0,
    ensures
        1 <= spec_weight(tau_entry, delta, alpha, beta) <= WEIGHT_CAP,
{
    lemma_pow_capped_bounds(tau_entry, alpha);
    lemma_pow_capped_bounds((FIXED_ONE as int) / spec_pos(delta), beta);
    assert(spec_pow_capped(tau_entry, alpha) * spec_pow_capped(
        (FIXED_ONE as int) / spec_pos(delta),
        beta,
    ) >= 0) by (nonlinear_arith)
        requires
            spec_pow_capped(tau_entry, alpha) >= 0,
            spec_pow_capped((FIXED_ONE as int) / spec_pos(delta), beta) >= 0;
}

/// The weight that candidate index `c` gets when the ant stands at
/// location index `current` with cumulative cost `cost`.
pub open spec fn spec_weight_at(
    warehouse: Location,
    customers: Seq<Location>,
    current: int,
    cost: int,
    tau: Seq<u64>,
    m: int,
    alpha: nat,
    beta: nat,
    c: usize,
) -> int {
    let from = spec_loc_of(warehouse, customers, current);
    let to = spec_loc_of(warehouse, customers, c as int);
    spec_weight(
        tau[spec_edge_idx(m, current, c as int)] as int,
        from.spec_arrival_cost(to, cost, true) - cost,
        alpha,
        beta,
    )
}

/// The weights of all deliverable candidates, in candidate order.
pub open spec fn spec_weights_of(
    warehouse: Location,
    customers: Seq<Location>,
    current: int,
    cost: int,
    tau: Seq<u64>,
    m: int,
    alpha: nat,
    beta: nat,
    d: Seq<usize>,
) -> Seq<u64> {
    Seq::new(
        d.len(),
        |i: int| spec_weight_at(warehouse, customers, current, cost, tau, m, alpha, beta, d[i]) as u64,
    )
}

/// Sum of a list of weights.
pub open spec fn spec_weight_sum(ws: Seq<u64>) -> int
    decreases ws.len(),
{
    if ws.len() == 0 {
        0
    } else {
        ws[0] + spec_weight_sum(ws.drop_first())
    }
}

pub proof fn lemma_weight_sum_bounds(ws: Seq<u64>)
    requires
        forall|i: int| 0 <= i < ws.len() ==> 1 <= #[trigger] ws[i] <= WEIGHT_CAP,
    ensures
        ws.len() <= spec_weight_sum(ws) <= ws.len() * WEIGHT_CAP,
    decreases ws.len(),
{
    if ws.len() > 0 {
        assert(forall|i: int|
            0 <= i < ws.drop_first().len() ==> 1 <= #[trigger] ws.drop_first()[i] <= WEIGHT_CAP);
        lemma_weight_sum_bounds(ws.drop_first());
    }
}

/// The index sampled from the weights by a draw `x`: the first position
/// whose cumulative weight exceeds `x`.
pub open spec fn spec_pick_weighted(ws: Seq<u64>, x: int) -> int
    decreases ws.len(),
{
    if ws.len() == 0 {
        0
    } else if x < ws[0] {
        0
    } else {
        1 + spec_pick_weighted(ws.drop_first(), x - ws[0])
    }
}

/// A draw below the total weight always lands on a candidate.
pub proof fn lemma_pick_weighted_in_range(ws: Seq<u64>, x: int)
    requires
        0 <= x < spec_weight_sum(ws),
    ensures
        0 <= spec_pick_weighted(ws, x) < ws.len(),
    decreases ws.len(),
{
    if ws.len() > 0 && !(x < ws[0]) {
        lemma_pick_weighted_in_range(ws.drop_first(), x - ws[0]);
    }
}

/// Every deliverable candidate occurs among the unvisited indices, names a
/// customer, and satisfies the deliverability test.
pub proof fn lemma_deliverable_idx_sound(
    warehouse: Location,
    customers: Seq<Location>,
    current: int,
    unvisited: Seq<usize>,
    cost: int,
    remaining_capacity: int,
)
    ensures
        ({
            let d = spec_deliverable_idx(
                warehouse,
                customers,
                current,
                unvisited,
                cost,
                remaining_capacity,
            );
            forall|i: int|
                0 <= i < d.len() ==> unvisited.contains(#[trigger] d[i]) && ({
                    let from = spec_loc_of(warehouse, customers, current);
                    let to = spec_loc_of(warehouse, customers, d[i] as int);
                    cost + from.spec_distance(to) <= to.due_date && to.demand
                        <= remaining_capacity
                })
        }),
    decreases unvisited.len(),
{
    if unvisited.len() > 0 {
        lemma_deliverable_idx_sound(
            warehouse,
            customers,
            current,
            unvisited.drop_last(),
            cost,
            remaining_capacity,
        );
        let d = spec_deliverable_idx(
            warehouse,
            customers,
            current,
            unvisited,
            cost,
            remaining_capacity,
        );
        let dp = spec_deliverable_idx(
            warehouse,
            customers,
            current,
            unvisited.drop_last(),
            cost,
            remaining_capacity,
        );
        assert forall|i: int| 0 <= i < d.len() implies unvisited.contains(#[trigger] d[i]) && ({
            let from = spec_loc_of(warehouse, customers, current);
            let to = spec_loc_of(warehouse, customers, d[i] as int);
            cost + from.spec_distance(to) <= to.due_date && to.demand <= remaining_capacity
        }) by {
            if i < dp.len() {
                assert(unvisited.drop_last().contains(dp[i]));
                let j = choose|j: int|
                    0 <= j < unvisited.drop_last().len() && unvisited.drop_last()[j] == dp[i];
                assert(unvisited[j] == d[i]);
            } else {
                assert(d[i] == unvisited.last());
                assert(unvisited[unvisited.len() - 1] == unvisited.last());
            }
        }
    }
}

pub proof fn lemma_deliverable_idx_len(
    warehouse: Location,
    customers: Seq<Location>,
    current: int,
    unvisited: Seq<usize>,
    cost: int,
    remaining_capacity: int,
)
    ensures
        spec_deliverable_idx(warehouse, customers, current, unvisited, cost, remaining_capacity).len()
            <= unvisited.len(),
    decreases unvisited.len(),
{
    if unvisited.len() > 0 {
        lemma_deliverable_idx_len(
            warehouse,
            customers,
            current,
            unvisited.drop_last(),
            cost,
            remaining_capacity,
        );
    }
}

/// The cheapest-candidate position is in range.
pub proof fn lemma_cheapest_of_idx_in_range(
    warehouse: Location,
    customers: Seq<Location>,
    current: int,
    d: Seq<usize>,
    cost: int,
)
    requires
        d.len() > 0,
    ensures
        0 <= spec_cheapest_of_idx(warehouse, customers, current, d, cost) < d.len(),
    decreases d.len(),
{
    if d.len() > 1 {
        lemma_cheapest_of_idx_in_range(warehouse, customers, current, d.drop_last(), cost);
    }
}

/// The cheapest-candidate position minimizes the arrival cost over all
/// candidates, and is the earliest position doing so.
pub proof fn lemma_cheapest_of_idx_min(
    warehouse: Location,
    customers: Seq<Location>,
    current: int,
    d: Seq<usize>,
    cost: int,
)
    requires
        d.len() > 0,
    ensures
        ({
            let from = spec_loc_of(warehouse, customers, current);
            let best = spec_cheapest_of_idx(warehouse, customers, current, d, cost);
            forall|i: int|
                0 <= i < d.len() ==> from.spec_arrival_cost(
                    spec_loc_of(warehouse, customers, d[best] as int),
                    cost,
                    true,
                ) <= from.spec_arrival_cost(
                    spec_loc_of(warehouse, customers, #[trigger] d[i] as int),
                    cost,
                    true,
                )
        }),
    decreases d.len(),
{
    if d.len() > 1 {
        lemma_cheapest_of_idx_min(warehouse, customers, current, d.drop_last(), cost);
        lemma_cheapest_of_idx_in_range(warehouse, customers, current, d.drop_last(), cost);
        assert(forall|i: int| 0 <= i < d.len() - 1 ==> #[trigger] d[i] == d.drop_last()[i]);
    }
}

/// The next-customer choice of one trial: `None` exactly when no candidate
/// is deliverable; otherwise, with probability `q0`, the deliverable
/// candidate of least arrival cost, and with the remaining probability a
/// candidate sampled from the weight distribution. Returns the choice and
/// the generator state after the draws taken.
pub open spec fn spec_select(
    warehouse: Location,
    customers: Seq<Location>,
    current: int,
    unvisited: Seq<usize>,
    cost: int,
    remaining_capacity: int,
    tau: Seq<u64>,
    m: int,
    alpha: nat,
    beta: nat,
    q0: int,
    rng_state: u64,
) -> (Option<usize>, u64) {
    let d = spec_deliverable_idx(warehouse, customers, current, unvisited, cost, remaining_capacity);
    if d.len() == 0 {
        (None, rng_state)
    } else {
        let r0 = crate::rng::spec_output(rng_state);
        let s1 = crate::rng::spec_next_state(rng_state);
        if (r0 % FIXED_ONE) < q0 {
            (Some(d[spec_cheapest_of_idx(warehouse, customers, current, d, cost)]), s1)
        } else {
            let ws = spec_weights_of(warehouse, customers, current, cost, tau, m, alpha, beta, d);
            let total = spec_weight_sum(ws);
            let r1 = crate::rng::spec_output(s1);
            let s2 = crate::rng::spec_next_state(s1);
            let x = (r1 as int) % spec_pos(total);
            (Some(d[spec_pick_weighted(ws, x)]), s2)
        }
    }
}

/// The location behind an arena index.
pub fn location_at(warehouse: &Location, customers: &Vec<Location>, i: usize) -> (l: Location)
    ensures
        l == spec_loc_of(*warehouse, customers@, i as int),
{
    if i < customers.len() {
        customers[i]
    } else {
        *warehouse
    }
}

/// Exponentiation saturating at `WEIGHT_CAP`.
fn pow_capped(base: u64, e: u16) -> (r: u64)
    requires
        base <= TAU_CAP,
    ensures
        r == spec_pow_capped(base as int, e as nat),
        r <= WEIGHT_CAP,
{
    let mut acc: u64 = 1;
    proof {
        lemma_pow_capped_bounds(base as int, e as nat);
    }
    for i in 0..e
        invariant
            base <= TAU_CAP,
            acc == spec_pow_capped(base as int, i as nat),
            acc <= WEIGHT_CAP,
    {
        proof {
            assert(base * acc <= TAU_CAP * WEIGHT_CAP) by (nonlinear_arith)
                requires
                    base <= TAU_CAP,
                    acc <= WEIGHT_CAP;
        }
        let q: u128 = base as u128 * acc as u128;
        if q > WEIGHT_CAP as u128 {
            acc = WEIGHT_CAP;
        } else {
            acc = q as u64;
        }
    }
    acc
}

/// The sampling weight of one candidate.
fn weight_of(tau_entry: u64, delta: u64, alpha: u16, beta: u16) -> (w: u64)
    requires
        tau_entry <= TAU_CAP,
    ensures
        w == spec_weight(tau_entry as int, delta as int, alpha as nat, beta as nat),
        1 <= w <= WEIGHT_CAP,
{
    let divisor: u64 = if delta < 1 {
        1
    } else {
        delta
    };
    let base_d: u64 = FIXED_ONE / divisor;
    let tp: u64 = pow_capped(tau_entry, alpha);
    let dp: u64 = pow_capped(base_d, beta);
    proof {
        lemma_pow_capped_bounds(tau_entry as int, alpha as nat);
        lemma_pow_capped_bounds(base_d as int, beta as nat);
        assert(tp * dp <= WEIGHT_CAP * WEIGHT_CAP) by (nonlinear_arith)
            requires
                tp <= WEIGHT_CAP,
                dp <= WEIGHT_CAP;
        assert(tp * dp >= 0) by (nonlinear_arith);
    }
    let prod: u128 = tp as u128 * dp as u128 + 1;
    if prod > WEIGHT_CAP as u128 {
        WEIGHT_CAP
    } else {
        prod as u64
    }
}

/// The candidate position sampled by a draw `x` below the total weight.
fn pick_weighted(ws: &Vec<u64>, x: u64) -> (idx: usize)
    requires
        (x as int) < spec_weight_sum(ws@),
    ensures
        idx as int == spec_pick_weighted(ws@, x as int),
        idx < ws@.len(),
{
    let mut idx: usize = 0;
    let mut rem: u64 = x;
    proof {
        assert(ws@.skip(0) =~= ws@);
    }
    while idx < ws.len() && rem >= ws[idx]
        invariant
            idx <= ws@.len(),
            spec_pick_weighted(ws@, x as int) == idx + spec_pick_weighted(
                ws@.skip(idx as int),
                rem as int,
            ),
            (rem as int) < spec_weight_sum(ws@.skip(idx as int)),
        decreases ws@.len() - idx,
    {
        proof {
            let sk = ws@.skip(idx as int);
            assert(sk[0] == ws@[idx as int]);
            assert(sk.drop_first() =~= ws@.skip(idx + 1));
        }
        rem = rem - ws[idx];
        idx = idx + 1;
    }
    proof {
        if idx == ws@.len() {
            assert(ws@.skip(idx as int) =~= Seq::<u64>::empty());
            assert(false);
        }
    }
    idx
}

/// Choose the next customer for one trial standing at location index
/// `current`, following the exploitation/exploration split of the engine.
pub fn select_next(
    warehouse: &Location,
    customers: &Vec<Location>,
    current: usize,
    unvisited: &Vec<usize>,
    cost: u64,
    remaining_capacity: u16,
    tau: &Vec<u64>,
    m: usize,
    params: &AcoParams,
    rng: &mut crate::rng::Rng64,
) -> (r: Option<usize>)
    requires
        m == customers@.len() + 1,
        m <= 65535,
        current < m,
        unvisited@.len() < m,
        forall|j: int| 0 <= j < unvisited@.len() ==> (#[trigger] unvisited@[j]) < m - 1,
        tau@.len() == m * m,
        forall|k: int| 0 <= k < tau@.len() ==> tau@[k] <= TAU_CAP,
        cost + MAX_COST_STEP <= u64::MAX,
    ensures
        ({
            let picked = spec_select(
                *warehouse,
                customers@,
                current as int,
                unvisited@,
                cost as int,
                remaining_capacity as int,
                tau@,
                m as int,
                params.alpha as nat,
                params.beta as nat,
                params.q0 as int,
                old(rng).state,
            );
            r == picked.0 && final(rng).state == picked.1
        }),
        r matches Some(c) ==> unvisited@.contains(c) && c < m - 1,
        r matches Some(c) ==> ({
            let from = spec_loc_of(*warehouse, customers@, current as int);
            let to = spec_loc_of(*warehouse, customers@, c as int);
            cost + from.spec_distance(to) <= to.due_date && to.demand <= remaining_capacity
        }),
{
    let from: Location = location_at(warehouse, customers, current);
    let mut d: Vec<usize> = Vec::new();
    let n: usize = unvisited.len();
    for j in 0..n
        invariant
            n == unvisited@.len(),
            m == customers@.len() + 1,
            from == spec_loc_of(*warehouse, customers@, current as int),
            cost + MAX_COST_STEP <= u64::MAX,
            forall|t: int| 0 <= t < unvisited@.len() ==> (#[trigger] unvisited@[t]) < m - 1,
            forall|t: int| 0 <= t < d@.len() ==> (#[trigger] d@[t]) < m - 1,
            d@ == spec_deliverable_idx(
                *warehouse,
                customers@,
                current as int,
                unvisited@.take(j as int),
                cost as int,
                remaining_capacity as int,
            ),
    {
        let cand: usize = unvisited[j];
        let to: Location = location_at(warehouse, customers, cand);
        proof {
            assert(unvisited@.take(j + 1).drop_last() =~= unvisited@.take(j as int));
            assert(unvisited@.take(j + 1).last() == cand);
        }
        if cost + from.distance_to(&to) <= to.due_date as u64 && to.demand <= remaining_capacity {
            d.push(cand);
        }
    }
    proof {
        assert(unvisited@.take(n as int) =~= unvisited@);
        lemma_deliverable_idx_len(
            *warehouse,
            customers@,
            current as int,
            unvisited@,
            cost as int,
            remaining_capacity as int,
        );
        lemma_deliverable_idx_sound(
            *warehouse,
            customers@,
            current as int,
            unvisited@,
            cost as int,
            remaining_capacity as int,
        );
    }
    let dn: usize = d.len();
    if dn == 0 {
        return None;
    }
    let r0: u64 = rng.next_u64();
    if r0 % FIXED_ONE < params.q0 as u64 {
        let mut best_i: usize = 0;
        let first_to: Location = location_at(warehouse, customers, d[0]);
        let mut best_cost: u64 = from.arrival_cost(&first_to, cost, true);
        proof {
            assert(d@.take(1) =~= seq![d@[0]]);
        }
        for i in 1..dn
            invariant
                dn == d@.len(),
                m == customers@.len() + 1,
                from == spec_loc_of(*warehouse, customers@, current as int),
                cost + MAX_COST_STEP <= u64::MAX,
                0 <= best_i < i <= dn,
                best_i as int == spec_cheapest_of_idx(
                    *warehouse,
                    customers@,
                    current as int,
                    d@.take(i as int),
                    cost as int,
                ),
                best_cost == from.spec_arrival_cost(
                    spec_loc_of(*warehouse, customers@, d@[best_i as int] as int),
                    cost as int,
                    true,
                ),
        {
            let to: Location = location_at(warehouse, customers, d[i]);
            let c: u64 = from.arrival_cost(&to, cost, true);
            proof {
                assert(d@.take(i + 1).drop_last() =~= d@.take(i as int));
                assert(d@.take(i + 1).last() == d@[i as int]);
                assert(forall|l: int|
                    0 <= l < i ==> d@.take(i + 1)[l] == #[trigger] d@.take(i as int)[l]);
            }
            if c < best_cost {
                best_i = i;
                best_cost = c;
            }
        }
        proof {
            assert(d@.take(dn as int) =~= d@);
        }
        Some(d[best_i])
    } else {
        let ghost wspec = spec_weights_of(
            *warehouse,
            customers@,
            current as int,
            cost as int,
            tau@,
            m as int,
            params.alpha as nat,
            params.beta as nat,
            d@,
        );
        let mut ws: Vec<u64> = Vec::new();
        for i in 0..dn
            invariant
                dn == d@.len(),
                m == customers@.len() + 1,
                m <= 65535,
                current < m,
                from == spec_loc_of(*warehouse, customers@, current as int),
                cost + MAX_COST_STEP <= u64::MAX,
                tau@.len() == m * m,
                forall|k: int| 0 <= k < tau@.len() ==> tau@[k] <= TAU_CAP,
                forall|t: int| 0 <= t < d@.len() ==> (#[trigger] d@[t]) < m - 1,
                wspec == spec_weights_of(
                    *warehouse,
                    customers@,
                    current as int,
                    cost as int,
                    tau@,
                    m as int,
                    params.alpha as nat,
                    params.beta as nat,
                    d@,
                ),
                ws@.len() == i,
                forall|l: int| 0 <= l < i ==> ws@[l] == wspec[l],
                forall|l: int| 0 <= l < i ==> 1 <= #[trigger] ws@[l] <= WEIGHT_CAP,
        {
            let cand: usize = d[i];
            let to: Location = location_at(warehouse, customers, cand);
            let stepped: u64 = from.arrival_cost(&to, cost, true);
            let delta: u64 = stepped - cost;
            proof {
                assert(current * m + cand < m * m) by (nonlinear_arith)
                    requires
                        current < m,
                        cand < m;
                assert(current * m + cand <= 65535 * 65535) by (nonlinear_arith)
                    requires
                        current < m,
                        cand < m,
                        m <= 65535;
            }
            let te: u64 = tau[current * m + cand];
            let w: u64 = weight_of(te, delta, params.alpha, params.beta);
            ws.push(w);
        }
        proof {
            assert(ws@ =~= wspec);
            lemma_weight_sum_bounds(ws@);
        }
        let mut total: u64 = 0;
        proof {
            assert(ws@.skip(0) =~= ws@);
        }
        for i in 0..dn
            invariant
                dn == ws@.len(),
                dn <= 65534,
                forall|l: int| 0 <= l < ws@.len() ==> 1 <= #[trigger] ws@[l] <= WEIGHT_CAP,
                total + spec_weight_sum(ws@.skip(i as int)) == spec_weight_sum(ws@),
                total <= i * WEIGHT_CAP,
        {
            proof {
                let sk = ws@.skip(i as int);
                assert(sk[0] == ws@[i as int]);
                assert(sk.drop_first() =~= ws@.skip(i + 1));
                lemma_weight_sum_bounds(ws@.skip(i + 1));
            }
            total = total + ws[i];
        }
        proof {
            assert(ws@.skip(dn as int) =~= Seq::<u64>::empty());
            lemma_weight_sum_bounds(ws@);
        }
        let r1: u64 = rng.next_u64();
        let x: u64 = r1 % total;
        proof {
            assert(spec_pos(spec_weight_sum(ws@)) == spec_weight_sum(ws@));
        }
        let pick: usize = pick_weighted(&ws, x);
        Some(d[pick])
    }
}

/// The list with the first occurrence of `v` removed.
pub open spec fn spec_remove_first_idx(s: Seq<usize>, v: usize) -> Seq<usize>
    decreases s.len(),
{
    if s.len() == 0 {
        s
    } else if s[0] == v {
        s.drop_first()
    } else {
        seq![s[0]] + spec_remove_first_idx(s.drop_first(), v)
    }
}

/// Removing a present value shortens the list by exactly one.
pub proof fn lemma_remove_first_idx_len(s: Seq<usize>, v: usize)
    requires
        s.contains(v),
    ensures
        spec_remove_first_idx(s, v).len() == s.len() - 1,
    decreases s.len(),
{
    if s[0] != v {
        let i = choose|i: int| 0 <= i < s.len() && s[i] == v;
        assert(s.drop_first()[i - 1] == v);
        lemma_remove_first_idx_len(s.drop_first(), v);
    }
}

/// Every element left after the removal occurs in the original list.
pub proof fn lemma_remove_first_idx_sound(s: Seq<usize>, v: usize)
    ensures
        forall|i: int|
            0 <= i < spec_remove_first_idx(s, v).len() ==> s.contains(
                #[trigger] spec_remove_first_idx(s, v)[i],
            ),
    decreases s.len(),
{
    if s.len() > 0 {
        lemma_remove_first_idx_sound(s.drop_first(), v);
        let f = spec_remove_first_idx(s, v);
        assert forall|i: int| 0 <= i < f.len() implies s.contains(#[trigger] f[i]) by {
            if s[0] == v {
                assert(f[i] == s.drop_first()[i]);
                assert(s[i + 1] == f[i]);
            } else {
                if i == 0 {
                    assert(s[0] == f[0]);
                } else {
                    assert(f[i] == spec_remove_first_idx(s.drop_first(), v)[i - 1]);
                    assert(s.drop_first().contains(f[i]));
                    let j = choose|j: int|
                        0 <= j < s.drop_first().len() && s.drop_first()[j] == f[i];
                    assert(s[j + 1] == f[i]);
                }
            }
        }
    }
}

/// Removing the value found at the first matching position is removing the
/// first occurrence.
pub proof fn lemma_remove_first_idx_at(s: Seq<usize>, v: usize, j: int)
    requires
        0 <= j < s.len(),
        s[j] == v,
        forall|l: int| 0 <= l < j ==> s[l] != v,
    ensures
        spec_remove_first_idx(s, v) == s.take(j) + s.skip(j + 1),
    decreases j,
{
    if j == 0 {
        assert(s.drop_first() =~= s.take(0) + s.skip(1));
    } else {
        assert(s.drop_first()[j - 1] == v);
        assert(forall|l: int| 0 <= l < j - 1 ==> s.drop_first()[l] == s[l + 1]);
        lemma_remove_first_idx_at(s.drop_first(), v, j - 1);
        assert(seq![s[0]] + (s.drop_first().take(j - 1) + s.drop_first().skip(j)) =~= s.take(j)
            + s.skip(j + 1));
    }
}

/// A chosen candidate always occurs among the unvisited indices.
pub proof fn lemma_select_some_in_unvisited(
    warehouse: Location,
    customers: Seq<Location>,
    current: int,
    unvisited: Seq<usize>,
    cost: int,
    remaining_capacity: int,
    tau: Seq<u64>,
    m: int,
    alpha: nat,
    beta: nat,
    q0: int,
    rng_state: u64,
)
    ensures
        ({
            let picked = spec_select(
                warehouse,
                customers,
                current,
                unvisited,
                cost,
                remaining_capacity,
                tau,
                m,
                alpha,
                beta,
                q0,
                rng_state,
            );
            picked.0 matches Some(c) ==> unvisited.contains(c)
        }),
{
    let d = spec_deliverable_idx(warehouse, customers, current, unvisited, cost, remaining_capacity);
    lemma_deliverable_idx_sound(warehouse, customers, current, unvisited, cost, remaining_capacity);
    if d.len() > 0 {
        lemma_cheapest_of_idx_in_range(warehouse, customers, current, d, cost);
        let ws = spec_weights_of(warehouse, customers, current, cost, tau, m, alpha, beta, d);
        assert forall|i: int| 0 <= i < ws.len() implies 1 <= #[trigger] ws[i] <= WEIGHT_CAP by {
            lemma_weight_bounds(
                tau[spec_edge_idx(m, current, d[i] as int)] as int,
                spec_loc_of(warehouse, customers, current).spec_arrival_cost(
                    spec_loc_of(warehouse, customers, d[i] as int),
                    cost,
                    true,
                ) - cost,
                alpha,
                beta,
            );
        }
        lemma_weight_sum_bounds(ws);
        let total = spec_weight_sum(ws);
        let s1 = crate::rng::spec_next_state(rng_state);
        let r1 = crate::rng::spec_output(s1);
        let x = (r1 as int) % spec_pos(total);
        lemma_pick_weighted_in_range(ws, x);
    }
}

/// Remove the first occurrence of `v` from the list.
fn remove_first(unvisited: &mut Vec<usize>, v: usize)
    requires
        old(unvisited)@.contains(v),
    ensures
        final(unvisited)@ == spec_remove_first_idx(old(unvisited)@, v),
{
    let n: usize = unvisited.len();
    let mut j: usize = 0;
    while j < n
        invariant
            n == unvisited@.len(),
            unvisited@ == old(unvisited)@,
            j <= n,
            unvisited@.contains(v),
            forall|l: int| 0 <= l < j ==> unvisited@[l] != v,
        decreases n - j,
    {
        if unvisited[j] == v {
            proof {
                lemma_remove_first_idx_at(unvisited@, v, j as int);
            }
            unvisited.remove(j);
            proof {
                assert(final(unvisited)@ =~= old(unvisited)@.take(j as int) + old(
                    unvisited,
                )@.skip(j + 1));
            }
            return ;
        }
        j = j + 1;
    }
    proof {
        let i = choose|i: int| 0 <= i < unvisited@.len() && unvisited@[i] == v;
        assert(false);
    }
}

/// The index route one ant builds from location index `current`: keep
/// choosing customers by `spec_select`, removing each chosen one, until no
/// candidate is deliverable. Yields the route, the remaining candidates and
/// the generator state after the route's draws. The fuel is an upper bound
/// on the number of selections; every caller passes at least the number of
/// candidates, which the result does not depend on.
pub open spec fn spec_trial_route(
    warehouse: Location,
    customers: Seq<Location>,
    current: int,
    unvisited: Seq<usize>,
    cost: int,
    remaining_capacity: int,
    tau: Seq<u64>,
    m: int,
    alpha: nat,
    beta: nat,
    q0: int,
    rng_state: u64,
    fuel: nat,
) -> (Seq<usize>, Seq<usize>, u64)
    decreases fuel,
{
    if fuel == 0 {
        (Seq::<usize>::empty(), unvisited, rng_state)
    } else {
        let picked = spec_select(
            warehouse,
            customers,
            current,
            unvisited,
            cost,
            remaining_capacity,
            tau,
            m,
            alpha,
            beta,
            q0,
            rng_state,
        );
        match picked.0 {
            None => (Seq::<usize>::empty(), unvisited, picked.1),
            Some(c) => {
                let to = spec_loc_of(warehouse, customers, c as int);
                let stepped = spec_loc_of(warehouse, customers, current).spec_arrival_cost(
                    to,
                    cost,
                    true,
                );
                let rest = spec_remove_first_idx(unvisited, c);
                let tail = spec_trial_route(
                    warehouse,
                    customers,
                    c as int,
                    rest,
                    stepped,
                    remaining_capacity - to.demand,
                    tau,
                    m,
                    alpha,
                    beta,
                    q0,
                    picked.1,
                    (fuel - 1) as nat,
                );
                (seq![c] + tail.0, tail.1, tail.2)
            },
        }
    }
}

/// Build one route of one trial, starting at the depot with an empty
/// vehicle, and remove the chosen customers from `unvisited`.
fn construct_trial_route(
    warehouse: &Location,
    customers: &Vec<Location>,
    capacity: u16,
    tau: &Vec<u64>,
    m: usize,
    params: &AcoParams,
    rng: &mut crate::rng::Rng64,
    unvisited: &mut Vec<usize>,
) -> (route: Vec<usize>)
    requires
        m == customers@.len() + 1,
        m <= 65535,
        old(unvisited)@.len() < m,
        forall|j: int| 0 <= j < old(unvisited)@.len() ==> (#[trigger] old(unvisited)@[j]) < m - 1,
        tau@.len() == m * m,
        forall|k: int| 0 <= k < tau@.len() ==> tau@[k] <= TAU_CAP,
    ensures
        ({
            let t = spec_trial_route(
                *warehouse,
                customers@,
                m - 1,
                old(unvisited)@,
                0,
                capacity as int,
                tau@,
                m as int,
                params.alpha as nat,
                params.beta as nat,
                params.q0 as int,
                old(rng).state,
                old(unvisited)@.len(),
            );
            route@ == t.0 && final(unvisited)@ == t.1 && final(rng).state == t.2
        }),
        route@.len() + final(unvisited)@.len() == old(unvisited)@.len(),
        forall|j: int| 0 <= j < final(unvisited)@.len() ==> (#[trigger] final(unvisited)@[j]) < m - 1,
        forall|j: int| 0 <= j < route@.len() ==> (#[trigger] route@[j]) < m - 1,
{
    let ghost univ0 = unvisited@;
    let ghost whole = spec_trial_route(
        *warehouse,
        customers@,
        m - 1,
        univ0,
        0,
        capacity as int,
        tau@,
        m as int,
        params.alpha as nat,
        params.beta as nat,
        params.q0 as int,
        rng.state,
        univ0.len(),
    );
    let mut route: Vec<usize> = Vec::new();
    let mut current: usize = m - 1;
    let mut cost: u64 = 0;
    let mut remaining: u16 = capacity;
    let mut done: bool = false;
    while !done
        invariant
            m == customers@.len() + 1,
            m <= 65535,
            current < m,
            route@.len() + unvisited@.len() == univ0.len(),
            univ0.len() < m,
            cost <= route@.len() * MAX_COST_STEP,
            tau@.len() == m * m,
            forall|k: int| 0 <= k < tau@.len() ==> tau@[k] <= TAU_CAP,
            forall|j: int| 0 <= j < unvisited@.len() ==> (#[trigger] unvisited@[j]) < m - 1,
            forall|j: int| 0 <= j < route@.len() ==> (#[trigger] route@[j]) < m - 1,
            ({
                if done {
                    whole == (route@, unvisited@, rng.state)
                } else {
                    let g = spec_trial_route(
                        *warehouse,
                        customers@,
                        current as int,
                        unvisited@,
                        cost as int,
                        remaining as int,
                        tau@,
                        m as int,
                        params.alpha as nat,
                        params.beta as nat,
                        params.q0 as int,
                        rng.state,
                        unvisited@.len(),
                    );
                    whole == (route@ + g.0, g.1, g.2)
                }
            }),
        decreases unvisited@.len() * 2 + (if done {
            0int
        } else {
            1int
        }),
    {
        proof {
            assert(route@.len() * MAX_COST_STEP <= 65535 * MAX_COST_STEP) by (nonlinear_arith)
                requires
                    route@.len() <= 65535;
        }
        let picked = select_next(
            warehouse,
            customers,
            current,
            unvisited,
            cost,
            remaining,
            tau,
            m,
            params,
            rng,
        );
        match picked {
            None => {
                proof {
                    assert(route@ + Seq::<usize>::empty() =~= route@);
                }
                done = true;
            },
            Some(c) => {
                let from: Location = location_at(warehouse, customers, current);
                let to: Location = location_at(warehouse, customers, c);
                proof {
                    lemma_remove_first_idx_len(unvisited@, c);
                    lemma_remove_first_idx_sound(unvisited@, c);
                    crate::location::lemma_arrival_cost_bounds(from, to, cost as int, true);
                    let rest = spec_remove_first_idx(unvisited@, c);
                    assert forall|j: int| 0 <= j < rest.len() implies (#[trigger] rest[j]) < m
                        - 1 by {
                        assert(unvisited@.contains(rest[j]));
                        let l = choose|l: int|
                            0 <= l < unvisited@.len() && unvisited@[l] == rest[j];
                    }
                    let tail = spec_trial_route(
                        *warehouse,
                        customers@,
                        c as int,
                        rest,
                        from.spec_arrival_cost(to, cost as int, true),
                        remaining - to.demand,
                        tau@,
                        m as int,
                        params.alpha as nat,
                        params.beta as nat,
                        params.q0 as int,
                        rng.state,
                        (unvisited@.len() - 1) as nat,
                    );
                    assert(route@ + (seq![c] + tail.0) =~= route@.push(c) + tail.0);
                }
                let stepped: u64 = from.arrival_cost(&to, cost, true);
                route.push(c);
                cost = stepped;
                remaining = remaining - to.demand;
                remove_first(unvisited, c);
                current = c;
            },
        }
    }
    route
}

/// The trial route does not depend on the fuel, once the fuel covers the
/// number of candidates.
pub proof fn lemma_trial_route_fuel(
    warehouse: Location,
    customers: Seq<Location>,
    current: int,
    unvisited: Seq<usize>,
    cost: int,
    remaining_capacity: int,
    tau: Seq<u64>,
    m: int,
    alpha: nat,
    beta: nat,
    q0: int,
    rng_state: u64,
    f1: nat,
    f2: nat,
)
    requires
        f1 >= unvisited.len(),
        f2 >= unvisited.len(),
    ensures
        spec_trial_route(
            warehouse,
            customers,
            current,
            unvisited,
            cost,
            remaining_capacity,
            tau,
            m,
            alpha,
            beta,
            q0,
            rng_state,
            f1,
        ) == spec_trial_route(
            warehouse,
            customers,
            current,
            unvisited,
            cost,
            remaining_capacity,
            tau,
            m,
            alpha,
            beta,
            q0,
            rng_state,
            f2,
        ),
    decreases f1,
{
    let picked = spec_select(
        warehouse,
        customers,
        current,
        unvisited,
        cost,
        remaining_capacity,
        tau,
        m,
        alpha,
        beta,
        q0,
        rng_state,
    );
    lemma_select_some_in_unvisited(
        warehouse,
        customers,
        current,
        unvisited,
        cost,
        remaining_capacity,
        tau,
        m,
        alpha,
        beta,
        q0,
        rng_state,
    );
    if picked.0 is Some {
        let c = picked.0->Some_0;
        lemma_remove_first_idx_len(unvisited, c);
        let to = spec_loc_of(warehouse, customers, c as int);
        lemma_trial_route_fuel(
            warehouse,
            customers,
            c as int,
            spec_remove_first_idx(unvisited, c),
            spec_loc_of(warehouse, customers, current).spec_arrival_cost(to, cost, true),
            remaining_capacity - to.demand,
            tau,
            m,
            alpha,
            beta,
            q0,
            picked.1,
            (f1 - 1) as nat,
            (f2 - 1) as nat,
        );
    }
}

/// List of the customer indices `0 .. n`.
pub open spec fn spec_index_list(n: nat) -> Seq<usize> {
    Seq::new(n, |i: int| i as usize)
}

/// One whole trial: open routes at the depot and fill them by the
/// stochastic selection rule, while customers remain and the fleet-size
/// limit is not reached. Yields the routes, the customers left unassigned,
/// and the generator state after the trial's draws. The fuel bounds the
/// number of routes opened; every caller passes at least the number of
/// candidates, which the result does not depend on.
pub open spec fn spec_trial(
    warehouse: Location,
    customers: Seq<Location>,
    capacity: int,
    n_vehicles: int,
    tau: Seq<u64>,
    m: int,
    alpha: nat,
    beta: nat,
    q0: int,
    unvisited: Seq<usize>,
    routes_used: int,
    rng_state: u64,
    fuel: nat,
) -> (Seq<Seq<usize>>, Seq<usize>, u64)
    decreases fuel,
{
    if fuel == 0 || unvisited.len() == 0 || routes_used >= n_vehicles {
        (Seq::<Seq<usize>>::empty(), unvisited, rng_state)
    } else {
        let built = spec_trial_route(
            warehouse,
            customers,
            m - 1,
            unvisited,
            0,
            capacity,
            tau,
            m,
            alpha,
            beta,
            q0,
            rng_state,
            unvisited.len(),
        );
        if built.1.len() < unvisited.len() {
            let tail = spec_trial(
                warehouse,
                customers,
                capacity,
                n_vehicles,
                tau,
                m,
                alpha,
                beta,
                q0,
                built.1,
                routes_used + 1,
                built.2,
                (fuel - 1) as nat,
            );
            (seq![built.0] + tail.0, tail.1, tail.2)
        } else {
            (Seq::<Seq<usize>>::empty(), built.1, built.2)
        }
    }
}

/// The trial does not depend on the fuel, once the fuel covers the number
/// of candidates.
pub proof fn lemma_trial_fuel(
    warehouse: Location,
    customers: Seq<Location>,
    capacity: int,
    n_vehicles: int,
    tau: Seq<u64>,
    m: int,
    alpha: nat,
    beta: nat,
    q0: int,
    unvisited: Seq<usize>,
    routes_used: int,
    rng_state: u64,
    f1: nat,
    f2: nat,
)
    requires
        f1 >= unvisited.len(),
        f2 >= unvisited.len(),
    ensures
        spec_trial(
            warehouse,
            customers,
            capacity,
            n_vehicles,
            tau,
            m,
            alpha,
            beta,
            q0,
            unvisited,
            routes_used,
            rng_state,
            f1,
        ) == spec_trial(
            warehouse,
            customers,
            capacity,
            n_vehicles,
            tau,
            m,
            alpha,
            beta,
            q0,
            unvisited,
            routes_used,
            rng_state,
            f2,
        ),
    decreases f1,
{
    if unvisited.len() > 0 && routes_used < n_vehicles {
        let built = spec_trial_route(
            warehouse,
            customers,
            m - 1,
            unvisited,
            0,
            capacity,
            tau,
            m,
            alpha,
            beta,
            q0,
            rng_state,
            unvisited.len(),
        );
        if built.1.len() < unvisited.len() {
            lemma_trial_fuel(
                warehouse,
                customers,
                capacity,
                n_vehicles,
                tau,
                m,
                alpha,
                beta,
                q0,
                built.1,
                routes_used + 1,
                built.2,
                (f1 - 1) as nat,
                (f2 - 1) as nat,
            );
        }
    }
}

/// List of the customer indices `0 .. n`.
fn index_list(n: usize) -> (r: Vec<usize>)
    ensures
        r@ == spec_index_list(n as nat),
{
    let mut out: Vec<usize> = Vec::new();
    for i in 0..n
        invariant
            out@.len() == i,
            forall|j: int| 0 <= j < i ==> out@[j] == j as usize,
    {
        out.push(i);
    }
    proof {
        assert(out@ =~= spec_index_list(n as nat));
    }
    out
}

/// Run one whole trial from a fresh candidate list; reports the routes and
/// whether every customer was assigned before the fleet ran out.
fn construct_trial(
    warehouse: &Location,
    customers: &Vec<Location>,
    capacity: u16,
    n_vehicles: u16,
    tau: &Vec<u64>,
    m: usize,
    params: &AcoParams,
    rng: &mut crate::rng::Rng64,
) -> (r: (Vec<Vec<usize>>, bool))
    requires
        m == customers@.len() + 1,
        m <= 65535,
        tau@.len() == m * m,
        forall|k: int| 0 <= k < tau@.len() ==> tau@[k] <= TAU_CAP,
    ensures
        ({
            let n = customers@.len();
            let t = spec_trial(
                *warehouse,
                customers@,
                capacity as int,
                n_vehicles as int,
                tau@,
                m as int,
                params.alpha as nat,
                params.beta as nat,
                params.q0 as int,
                spec_index_list(n),
                0,
                old(rng).state,
                n,
            );
            r.0@.map_values(|route: Vec<usize>| route@) == t.0 && r.1 == (t.1.len() == 0)
                && final(rng).state == t.2
        }),
        r.0@.len() <= n_vehicles,
        forall|i: int|
            0 <= i < r.0@.len() ==> (#[trigger] r.0@[i])@.len() <= customers@.len()
                && spec_route_indices_wf(r.0@[i]@, m as int),
{
    let n: usize = customers.len();
    let ghost univ0 = spec_index_list(n as nat);
    let ghost whole = spec_trial(
        *warehouse,
        customers@,
        capacity as int,
        n_vehicles as int,
        tau@,
        m as int,
        params.alpha as nat,
        params.beta as nat,
        params.q0 as int,
        univ0,
        0,
        rng.state,
        n as nat,
    );
    let mut unvisited: Vec<usize> = index_list(n);
    let mut sols: Vec<Vec<usize>> = Vec::new();
    let mut routes_used: u16 = 0;
    let mut done: bool = false;
    while !done
        invariant
            n == customers@.len(),
            m == n + 1,
            m <= 65535,
            tau@.len() == m * m,
            forall|k: int| 0 <= k < tau@.len() ==> tau@[k] <= TAU_CAP,
            unvisited@.len() <= n,
            routes_used <= n_vehicles,
            sols@.len() == routes_used,
            forall|j: int| 0 <= j < unvisited@.len() ==> (#[trigger] unvisited@[j]) < m - 1,
            forall|i: int|
                0 <= i < sols@.len() ==> (#[trigger] sols@[i])@.len() <= n
                    && spec_route_indices_wf(sols@[i]@, m as int),
            ({
                if done {
                    whole == (sols@.map_values(|route: Vec<usize>| route@), unvisited@, rng.state)
                } else {
                    let g = spec_trial(
                        *warehouse,
                        customers@,
                        capacity as int,
                        n_vehicles as int,
                        tau@,
                        m as int,
                        params.alpha as nat,
                        params.beta as nat,
                        params.q0 as int,
                        unvisited@,
                        routes_used as int,
                        rng.state,
                        unvisited@.len(),
                    );
                    whole == (sols@.map_values(|route: Vec<usize>| route@) + g.0, g.1, g.2)
                }
            }),
        decreases (n_vehicles - routes_used) * 2 + (if done {
            0int
        } else {
            1int
        }),
    {
        if unvisited.is_empty() || routes_used >= n_vehicles {
            proof {
                assert(sols@.map_values(|route: Vec<usize>| route@) + Seq::<Seq<usize>>::empty()
                    =~= sols@.map_values(|route: Vec<usize>| route@));
            }
            done = true;
        } else {
            let ghost univ_before = unvisited@;
            let ghost rng_before = rng.state;
            let route: Vec<usize> = construct_trial_route(
                warehouse,
                customers,
                capacity,
                tau,
                m,
                params,
                rng,
                &mut unvisited,
            );
            if route.is_empty() {
                proof {
                    assert(sols@.map_values(|r2: Vec<usize>| r2@) + Seq::<Seq<usize>>::empty()
                        =~= sols@.map_values(|r2: Vec<usize>| r2@));
                }
                done = true;
            } else {
                proof {
                    lemma_trial_fuel(
                        *warehouse,
                        customers@,
                        capacity as int,
                        n_vehicles as int,
                        tau@,
                        m as int,
                        params.alpha as nat,
                        params.beta as nat,
                        params.q0 as int,
                        unvisited@,
                        routes_used + 1,
                        rng.state,
                        (univ_before.len() - 1) as nat,
                        unvisited@.len(),
                    );
                    let g_tail = spec_trial(
                        *warehouse,
                        customers@,
                        capacity as int,
                        n_vehicles as int,
                        tau@,
                        m as int,
                        params.alpha as nat,
                        params.beta as nat,
                        params.q0 as int,
                        unvisited@,
                        routes_used + 1,
                        rng.state,
                        unvisited@.len(),
                    );
                    assert(sols@.map_values(|r2: Vec<usize>| r2@) + (seq![route@] + g_tail.0)
                        =~= sols@.map_values(|r2: Vec<usize>| r2@).push(route@) + g_tail.0);
                    assert(sols@.push(route).map_values(|r2: Vec<usize>| r2@)
                        =~= sols@.map_values(|r2: Vec<usize>| r2@).push(route@));
                }
                sols.push(route);
                routes_used = routes_used + 1;
            }
        }
    }
    let complete: bool = unvisited.is_empty();
    (sols, complete)
}

/// How many times customer index `v` occurs in the list.
pub open spec fn spec_count_idx(s: Seq<usize>, v: usize) -> int
    decreases s.len(),
{
    if s.len() == 0 {
        0
    } else {
        (if s[0] == v {
            1int
        } else {
            0int
        }) + spec_count_idx(s.drop_first(), v)
    }
}

/// How many times customer index `v` occurs across all routes of a
/// solution.
pub open spec fn spec_sol_count(sol: Seq<Seq<usize>>, v: usize) -> int
    decreases sol.len(),
{
    if sol.len() == 0 {
        0
    } else {
        spec_count_idx(sol[0], v) + spec_sol_count(sol.drop_first(), v)
    }
}

/// A solution that serves every customer of an `n`-customer instance
/// exactly once and no one else.
pub open spec fn spec_covering_solution(n: int, sol: Seq<Seq<usize>>) -> bool {
    forall|v: usize|
        #[trigger] spec_sol_count(sol, v) == if (v as int) < n {
            1int
        } else {
            0int
        }
}

pub proof fn lemma_count_single_concat(x: usize, t: Seq<usize>, w: usize)
    ensures
        spec_count_idx(seq![x] + t, w) == (if x == w {
            1int
        } else {
            0int
        }) + spec_count_idx(t, w),
{
    assert((seq![x] + t)[0] == x);
    assert((seq![x] + t).drop_first() =~= t);
}

/// Removing the first occurrence lowers that value's count by one and
/// keeps every other count.
pub proof fn lemma_remove_first_idx_count(s: Seq<usize>, v: usize, w: usize)
    requires
        s.contains(v),
    ensures
        spec_count_idx(spec_remove_first_idx(s, v), w) == spec_count_idx(s, w) - (if w == v {
            1int
        } else {
            0int
        }),
    decreases s.len(),
{
    if s[0] != v {
        let i = choose|i: int| 0 <= i < s.len() && s[i] == v;
        assert(s.drop_first()[i - 1] == v);
        lemma_remove_first_idx_count(s.drop_first(), v, w);
        lemma_count_single_concat(s[0], spec_remove_first_idx(s.drop_first(), v), w);
    }
}

pub proof fn lemma_count_drop_last(s: Seq<usize>, w: usize)
    requires
        s.len() > 0,
    ensures
        spec_count_idx(s, w) == spec_count_idx(s.drop_last(), w) + (if s.last() == w {
            1int
        } else {
            0int
        }),
    decreases s.len(),
{
    if s.len() > 1 {
        lemma_count_drop_last(s.drop_first(), w);
        assert(s.drop_first().drop_last() =~= s.drop_last().drop_first());
        assert(s.drop_last()[0] == s[0]);
        assert(s.drop_first().last() == s.last());
        assert(spec_count_idx(s.drop_last(), w) == (if s.drop_last()[0] == w {
            1int
        } else {
            0int
        }) + spec_count_idx(s.drop_last().drop_first(), w));
    } else {
        assert(s.drop_last() =~= Seq::<usize>::empty());
        assert(s.drop_first() =~= Seq::<usize>::empty());
        assert(s.last() == s[0]);
    }
}

/// Every customer index below `n` occurs exactly once in the fresh index
/// list, and no other value occurs.
pub proof fn lemma_index_list_count(n: nat, w: usize)
    requires
        n <= usize::MAX,
    ensures
        spec_count_idx(spec_index_list(n), w) == if (w as int) < n {
            1int
        } else {
            0int
        },
    decreases n,
{
    if n > 0 {
        assert(spec_index_list(n).drop_last() =~= spec_index_list((n - 1) as nat));
        assert(spec_index_list(n).last() == (n - 1) as usize);
        lemma_count_drop_last(spec_index_list(n), w);
        lemma_index_list_count((n - 1) as nat, w);
    }
}

/// One route of a trial accounts for the candidates exactly: appended and
/// remaining counts add up to the original count, for every customer.
pub proof fn lemma_trial_route_count(
    warehouse: Location,
    customers: Seq<Location>,
    current: int,
    unvisited: Seq<usize>,
    cost: int,
    remaining_capacity: int,
    tau: Seq<u64>,
    m: int,
    alpha: nat,
    beta: nat,
    q0: int,
    rng_state: u64,
    fuel: nat,
    w: usize,
)
    ensures
        ({
            let t = spec_trial_route(
                warehouse,
                customers,
                current,
                unvisited,
                cost,
                remaining_capacity,
                tau,
                m,
                alpha,
                beta,
                q0,
                rng_state,
                fuel,
            );
            spec_count_idx(t.0, w) + spec_count_idx(t.1, w) == spec_count_idx(unvisited, w)
        }),
    decreases fuel,
{
    if fuel > 0 {
        let picked = spec_select(
            warehouse,
            customers,
            current,
            unvisited,
            cost,
            remaining_capacity,
            tau,
            m,
            alpha,
            beta,
            q0,
            rng_state,
        );
        lemma_select_some_in_unvisited(
            warehouse,
            customers,
            current,
            unvisited,
            cost,
            remaining_capacity,
            tau,
            m,
            alpha,
            beta,
            q0,
            rng_state,
        );
        if picked.0 is Some {
            let c = picked.0->Some_0;
            let to = spec_loc_of(warehouse, customers, c as int);
            let rest = spec_remove_first_idx(unvisited, c);
            lemma_remove_first_idx_count(unvisited, c, w);
            let tail = spec_trial_route(
                warehouse,
                customers,
                c as int,
                rest,
                spec_loc_of(warehouse, customers, current).spec_arrival_cost(to, cost, true),
                remaining_capacity - to.demand,
                tau,
                m,
                alpha,
                beta,
                q0,
                picked.1,
                (fuel - 1) as nat,
            );
            lemma_trial_route_count(
                warehouse,
                customers,
                c as int,
                rest,
                spec_loc_of(warehouse, customers, current).spec_arrival_cost(to, cost, true),
                remaining_capacity - to.demand,
                tau,
                m,
                alpha,
                beta,
                q0,
                picked.1,
                (fuel - 1) as nat,
                w,
            );
            lemma_count_single_concat(c, tail.0, w);
        }
    }
}

/// One route of a trial accounts for the candidates exactly in number.
pub proof fn lemma_trial_route_len(
    warehouse: Location,
    customers: Seq<Location>,
    current: int,
    unvisited: Seq<usize>,
    cost: int,
    remaining_capacity: int,
    tau: Seq<u64>,
    m: int,
    alpha: nat,
    beta: nat,
    q0: int,
    rng_state: u64,
    fuel: nat,
)
    ensures
        ({
            let t = spec_trial_route(
                warehouse,
                customers,
                current,
                unvisited,
                cost,
                remaining_capacity,
                tau,
                m,
                alpha,
                beta,
                q0,
                rng_state,
                fuel,
            );
            t.0.len() + t.1.len() == unvisited.len()
        }),
    decreases fuel,
{
    if fuel > 0 {
        let picked = spec_select(
            warehouse,
            customers,
            current,
            unvisited,
            cost,
            remaining_capacity,
            tau,
            m,
            alpha,
            beta,
            q0,
            rng_state,
        );
        lemma_select_some_in_unvisited(
            warehouse,
            customers,
            current,
            unvisited,
            cost,
            remaining_capacity,
            tau,
            m,
            alpha,
            beta,
            q0,
            rng_state,
        );
        if picked.0 is Some {
            let c = picked.0->Some_0;
            let to = spec_loc_of(warehouse, customers, c as int);
            lemma_remove_first_idx_len(unvisited, c);
            lemma_trial_route_len(
                warehouse,
                customers,
                c as int,
                spec_remove_first_idx(unvisited, c),
                spec_loc_of(warehouse, customers, current).spec_arrival_cost(to, cost, true),
                remaining_capacity - to.demand,
                tau,
                m,
                alpha,
                beta,
                q0,
                picked.1,
                (fuel - 1) as nat,
            );
        }
    }
}

/// A whole trial accounts for the candidates exactly: assigned and
/// unassigned counts add up to the original count, for every customer.
pub proof fn lemma_trial_count(
    warehouse: Location,
    customers: Seq<Location>,
    capacity: int,
    n_vehicles: int,
    tau: Seq<u64>,
    m: int,
    alpha: nat,
    beta: nat,
    q0: int,
    unvisited: Seq<usize>,
    routes_used: int,
    rng_state: u64,
    fuel: nat,
    w: usize,
)
    ensures
        ({
            let t = spec_trial(
                warehouse,
                customers,
                capacity,
                n_vehicles,
                tau,
                m,
                alpha,
                beta,
                q0,
                unvisited,
                routes_used,
                rng_state,
                fuel,
            );
            spec_sol_count(t.0, w) + spec_count_idx(t.1, w) == spec_count_idx(unvisited, w)
        }),
    decreases fuel,
{
    if fuel > 0 && unvisited.len() > 0 && routes_used < n_vehicles {
        let built = spec_trial_route(
            warehouse,
            customers,
            m - 1,
            unvisited,
            0,
            capacity,
            tau,
            m,
            alpha,
            beta,
            q0,
            rng_state,
            unvisited.len(),
        );
        lemma_trial_route_count(
            warehouse,
            customers,
            m - 1,
            unvisited,
            0,
            capacity,
            tau,
            m,
            alpha,
            beta,
            q0,
            rng_state,
            unvisited.len(),
            w,
        );
        if built.1.len() < unvisited.len() {
            let tail = spec_trial(
                warehouse,
                customers,
                capacity,
                n_vehicles,
                tau,
                m,
                alpha,
                beta,
                q0,
                built.1,
                routes_used + 1,
                built.2,
                (fuel - 1) as nat,
            );
            lemma_trial_count(
                warehouse,
                customers,
                capacity,
                n_vehicles,
                tau,
                m,
                alpha,
                beta,
                q0,
                built.1,
                routes_used + 1,
                built.2,
                (fuel - 1) as nat,
                w,
            );
            assert((seq![built.0] + tail.0)[0] == built.0);
            assert((seq![built.0] + tail.0).drop_first() =~= tail.0);
        } else {
            lemma_trial_route_len(
                warehouse,
                customers,
                m - 1,
                unvisited,
                0,
                capacity,
                tau,
                m,
                alpha,
                beta,
                q0,
                rng_state,
                unvisited.len(),
            );
            assert(built.0.len() == 0);
        }
    }
}

/// The locations behind a route of arena indices.
pub open spec fn spec_locs_of(warehouse: Location, customers: Seq<Location>, route: Seq<usize>) -> Seq<
    Location,
> {
    route.map_values(|i: usize| spec_loc_of(warehouse, customers, i as int))
}

/// Total cost of an index solution: the sum of its routes' total costs,
/// service times included.
pub open spec fn spec_idx_solution_cost(
    warehouse: Location,
    customers: Seq<Location>,
    sol: Seq<Seq<usize>>,
) -> int
    decreases sol.len(),
{
    if sol.len() == 0 {
        0
    } else {
        spec_idx_solution_cost(warehouse, customers, sol.drop_last())
            + crate::route::spec_route_cost_of(
            warehouse,
            spec_locs_of(warehouse, customers, sol.last()),
            true,
        )
    }
}

/// Fold one trial into the best-known solution: a complete trial of
/// strictly lower cost replaces it.
pub open spec fn spec_eval_step(
    warehouse: Location,
    customers: Seq<Location>,
    best: Option<(Seq<Seq<usize>>, int)>,
    trial: (Seq<Seq<usize>>, Seq<usize>),
) -> Option<(Seq<Seq<usize>>, int)> {
    if trial.1.len() != 0 {
        best
    } else {
        let cost = spec_idx_solution_cost(warehouse, customers, trial.0);
        match best {
            None => Some((trial.0, cost)),
            Some(b) => if cost < b.1 {
                Some((trial.0, cost))
            } else {
                best
            },
        }
    }
}

/// Fold all of an iteration's trials, in order, into the best-known
/// solution.
pub open spec fn spec_eval(
    warehouse: Location,
    customers: Seq<Location>,
    trials: Seq<(Seq<Seq<usize>>, Seq<usize>)>,
    best: Option<(Seq<Seq<usize>>, int)>,
) -> Option<(Seq<Seq<usize>>, int)>
    decreases trials.len(),
{
    if trials.len() == 0 {
        best
    } else {
        spec_eval_step(
            warehouse,
            customers,
            spec_eval(warehouse, customers, trials.drop_last(), best),
            trials.last(),
        )
    }
}

/// The trials of one iteration: `ants` independent constructions, each
/// starting from the full candidate list, threading the generator.
pub open spec fn spec_trials(
    warehouse: Location,
    customers: Seq<Location>,
    capacity: int,
    n_vehicles: int,
    tau: Seq<u64>,
    m: int,
    alpha: nat,
    beta: nat,
    q0: int,
    ants: nat,
    rng_state: u64,
) -> (Seq<(Seq<Seq<usize>>, Seq<usize>)>, u64)
    decreases ants,
{
    if ants == 0 {
        (Seq::<(Seq<Seq<usize>>, Seq<usize>)>::empty(), rng_state)
    } else {
        let t = spec_trial(
            warehouse,
            customers,
            capacity,
            n_vehicles,
            tau,
            m,
            alpha,
            beta,
            q0,
            spec_index_list(customers.len()),
            0,
            rng_state,
            customers.len(),
        );
        let rest = spec_trials(
            warehouse,
            customers,
            capacity,
            n_vehicles,
            tau,
            m,
            alpha,
            beta,
            q0,
            (ants - 1) as nat,
            t.2,
        );
        (seq![(t.0, t.1)] + rest.0, rest.1)
    }
}

/// Deposit the penalizing amount on every edge used by any trial, trials
/// in order.
pub open spec fn spec_penalized(
    tau: Seq<u64>,
    m: int,
    trials: Seq<(Seq<Seq<usize>>, Seq<usize>)>,
    amount: int,
) -> Seq<u64>
    decreases trials.len(),
{
    if trials.len() == 0 {
        tau
    } else {
        spec_penalized(
            spec_deposited(tau, spec_solution_edges(m, trials[0].0), amount),
            m,
            trials.drop_first(),
            amount,
        )
    }
}

/// One iteration of the engine: construct the trials, fold them into the
/// best-known solution, update the pheromone state (evaporate, reinforce
/// the best-known solution, penalize every trial, in that fixed order),
/// and handle stagnation. Yields the new pheromone state, best-known
/// solution, stagnation counter, the iteration's history entry, and the
/// generator state.
pub open spec fn spec_iteration(
    warehouse: Location,
    customers: Seq<Location>,
    capacity: int,
    n_vehicles: int,
    m: int,
    params: AcoParams,
    tau: Seq<u64>,
    best: Option<(Seq<Seq<usize>>, int)>,
    stagnation: int,
    rng_state: u64,
) -> (Seq<u64>, Option<(Seq<Seq<usize>>, int)>, int, u64, u64) {
    let tr = spec_trials(
        warehouse,
        customers,
        capacity,
        n_vehicles,
        tau,
        m,
        params.alpha as nat,
        params.beta as nat,
        params.q0 as int,
        params.n_ants as nat,
        rng_state,
    );
    let best1 = spec_eval(warehouse, customers, tr.0, best);
    let improved = match best {
        None => best1 is Some,
        Some(b0) => best1 is Some && best1->Some_0.1 < b0.1,
    };
    let best_amount = match best1 {
        None => 0int,
        Some(b) => params.rho as int / spec_pos(b.1),
    };
    let all_amount = params.rho as int * params.pheromone_amt as int / (FIXED_ONE as int);
    let evaporated = spec_evaporated(tau, params.rho as int);
    let reinforced = match best1 {
        None => evaporated,
        Some(b) => spec_deposited(evaporated, spec_solution_edges(m, b.0), best_amount),
    };
    let updated = spec_penalized(reinforced, m, tr.0, all_amount);
    let stagnation1 = if improved {
        0int
    } else {
        stagnation + 1
    };
    let entry = match best1 {
        None => u64::MAX,
        Some(b) => b.1 as u64,
    };
    if stagnation1 >= params.max_r {
        let tau2 = match best1 {
            None => spec_uniform_tau(m, params.pheromone_amt),
            Some(b) => spec_reset_tau(m, params.pheromone_amt, b.0, best_amount),
        };
        (tau2, best1, 0int, entry, tr.1)
    } else {
        (updated, best1, stagnation1, entry, tr.1)
    }
}

/// Across one iteration the best-known solution is retained, and its cost
/// never worsens.
pub proof fn lemma_iteration_keeps_best(
    warehouse: Location,
    customers: Seq<Location>,
    capacity: int,
    n_vehicles: int,
    m: int,
    params: AcoParams,
    tau: Seq<u64>,
    best: Option<(Seq<Seq<usize>>, int)>,
    stagnation: int,
    rng_state: u64,
)
    ensures
        ({
            let it = spec_iteration(
                warehouse,
                customers,
                capacity,
                n_vehicles,
                m,
                params,
                tau,
                best,
                stagnation,
                rng_state,
            );
            &&& best is Some ==> it.1 is Some
            &&& best matches Some(b0) ==> it.1->Some_0.1 <= b0.1
        }),
{
    let tr = spec_trials(
        warehouse,
        customers,
        capacity,
        n_vehicles,
        tau,
        m,
        params.alpha as nat,
        params.beta as nat,
        params.q0 as int,
        params.n_ants as nat,
        rng_state,
    );
    lemma_eval_keeps_best(warehouse, customers, tr.0, best);
}

/// The engine state after `k` iterations: the pheromone state, the
/// best-known solution with its cost, the stagnation counter, the
/// per-iteration best-cost history, and the generator state.
pub open spec fn spec_engine(
    warehouse: Location,
    customers: Seq<Location>,
    capacity: int,
    n_vehicles: int,
    m: int,
    params: AcoParams,
    k: nat,
) -> (Seq<u64>, Option<(Seq<Seq<usize>>, int)>, int, Seq<u64>, u64)
    decreases k,
{
    if k == 0 {
        (
            spec_uniform_tau(m, params.pheromone_amt),
            None::<(Seq<Seq<usize>>, int)>,
            0int,
            Seq::<u64>::empty(),
            params.seed,
        )
    } else {
        let prev = spec_engine(warehouse, customers, capacity, n_vehicles, m, params, (k - 1) as nat);
        let it = spec_iteration(
            warehouse,
            customers,
            capacity,
            n_vehicles,
            m,
            params,
            prev.0,
            prev.1,
            prev.2,
            prev.4,
        );
        (it.0, it.1, it.2, prev.3.push(it.3), it.4)
    }
}

/// The best-known solution is retained across an evaluation and is
/// superseded only by one of strictly lower cost.
pub proof fn lemma_eval_keeps_best(
    warehouse: Location,
    customers: Seq<Location>,
    trials: Seq<(Seq<Seq<usize>>, Seq<usize>)>,
    best: Option<(Seq<Seq<usize>>, int)>,
)
    ensures
        best is Some ==> spec_eval(warehouse, customers, trials, best) is Some,
        best matches Some(b0) ==> spec_eval(warehouse, customers, trials, best)->Some_0.1 <= b0.1,
    decreases trials.len(),
{
    if trials.len() > 0 {
        lemma_eval_keeps_best(warehouse, customers, trials.drop_last(), best);
    }
}

/// Folding trials into the best-known solution only ever adopts covering
/// solutions.
pub proof fn lemma_eval_covers(
    warehouse: Location,
    customers: Seq<Location>,
    n: int,
    trials: Seq<(Seq<Seq<usize>>, Seq<usize>)>,
    best: Option<(Seq<Seq<usize>>, int)>,
)
    requires
        best matches Some(b) ==> spec_covering_solution(n, b.0),
        forall|i: int|
            0 <= i < trials.len() ==> ((#[trigger] trials[i]).1.len() == 0
                ==> spec_covering_solution(n, trials[i].0)),
    ensures
        spec_eval(warehouse, customers, trials, best) matches Some(b) ==> spec_covering_solution(
            n,
            b.0,
        ),
    decreases trials.len(),
{
    if trials.len() > 0 {
        assert(forall|i: int|
            0 <= i < trials.drop_last().len() ==> #[trigger] trials.drop_last()[i] == trials[i]);
        lemma_eval_covers(warehouse, customers, n, trials.drop_last(), best);
        assert(trials.last() == trials[trials.len() - 1]);
    }
}

/// Every complete trial of an iteration is a covering solution: it serves
/// every customer exactly once.
pub proof fn lemma_trials_cover(
    warehouse: Location,
    customers: Seq<Location>,
    capacity: int,
    n_vehicles: int,
    tau: Seq<u64>,
    m: int,
    alpha: nat,
    beta: nat,
    q0: int,
    ants: nat,
    rng_state: u64,
)
    requires
        customers.len() <= usize::MAX,
    ensures
        ({
            let tr = spec_trials(
                warehouse,
                customers,
                capacity,
                n_vehicles,
                tau,
                m,
                alpha,
                beta,
                q0,
                ants,
                rng_state,
            );
            forall|i: int|
                0 <= i < tr.0.len() ==> ((#[trigger] tr.0[i]).1.len() == 0
                    ==> spec_covering_solution(customers.len() as int, tr.0[i].0))
        }),
    decreases ants,
{
    if ants > 0 {
        let n = customers.len();
        let t = spec_trial(
            warehouse,
            customers,
            capacity,
            n_vehicles,
            tau,
            m,
            alpha,
            beta,
            q0,
            spec_index_list(n),
            0,
            rng_state,
            n,
        );
        let rest = spec_trials(
            warehouse,
            customers,
            capacity,
            n_vehicles,
            tau,
            m,
            alpha,
            beta,
            q0,
            (ants - 1) as nat,
            t.2,
        );
        lemma_trials_cover(
            warehouse,
            customers,
            capacity,
            n_vehicles,
            tau,
            m,
            alpha,
            beta,
            q0,
            (ants - 1) as nat,
            t.2,
        );
        let tr = spec_trials(
            warehouse,
            customers,
            capacity,
            n_vehicles,
            tau,
            m,
            alpha,
            beta,
            q0,
            ants,
            rng_state,
        );
        assert forall|i: int|
            0 <= i < tr.0.len() implies ((#[trigger] tr.0[i]).1.len() == 0
            ==> spec_covering_solution(customers.len() as int, tr.0[i].0)) by {
            if i == 0 {
                assert(tr.0[0] == (t.0, t.1));
                if t.1.len() == 0 {
                    assert forall|v: usize|
                        #[trigger] spec_sol_count(t.0, v) == if (v as int) < customers.len() {
                            1int
                        } else {
                            0int
                        } by {
                        lemma_trial_count(
                            warehouse,
                            customers,
                            capacity,
                            n_vehicles,
                            tau,
                            m,
                            alpha,
                            beta,
                            q0,
                            spec_index_list(n),
                            0,
                            rng_state,
                            n,
                            v,
                        );
                        lemma_index_list_count(n, v);
                    }
                }
            } else {
                assert(tr.0[i] == rest.0[i - 1]);
            }
        }
    }
}

/// The engine's best-known solution, whenever one exists, serves every
/// customer exactly once: evaluation only ever adopts complete trials, and
/// a complete trial assigns each customer to exactly one position of one
/// route.
pub proof fn lemma_engine_best_covers(
    warehouse: Location,
    customers: Seq<Location>,
    capacity: int,
    n_vehicles: int,
    m: int,
    params: AcoParams,
    k: nat,
)
    requires
        customers.len() <= usize::MAX,
    ensures
        spec_engine(warehouse, customers, capacity, n_vehicles, m, params, k).1 matches Some(b)
            ==> spec_covering_solution(customers.len() as int, b.0),
    decreases k,
{
    if k > 0 {
        lemma_engine_best_covers(
            warehouse,
            customers,
            capacity,
            n_vehicles,
            m,
            params,
            (k - 1) as nat,
        );
        let prev = spec_engine(warehouse, customers, capacity, n_vehicles, m, params, (k - 1) as nat);
        let tr = spec_trials(
            warehouse,
            customers,
            capacity,
            n_vehicles,
            prev.0,
            m,
            params.alpha as nat,
            params.beta as nat,
            params.q0 as int,
            params.n_ants as nat,
            prev.4,
        );
        lemma_trials_cover(
            warehouse,
            customers,
            capacity,
            n_vehicles,
            prev.0,
            m,
            params.alpha as nat,
            params.beta as nat,
            params.q0 as int,
            params.n_ants as nat,
            prev.4,
        );
        lemma_eval_covers(warehouse, customers, customers.len() as int, tr.0, prev.1);
    }
}

/// A fresh vector with the same indices.
fn copy_indices(v: &Vec<usize>) -> (r: Vec<usize>)
    ensures
        r@ == v@,
{
    let mut out: Vec<usize> = Vec::new();
    let n: usize = v.len();
    for i in 0..n
        invariant
            n == v@.len(),
            out@ == v@.take(i as int),
    {
        out.push(v[i]);
        proof {
            assert(v@.take(i + 1) =~= v@.take(i as int).push(v@[i as int]));
        }
    }
    proof {
        assert(v@.take(n as int) =~= v@);
    }
    out
}

/// A fresh vector of vectors with the same index routes.
fn copy_index_routes(v: &Vec<Vec<usize>>) -> (r: Vec<Vec<usize>>)
    ensures
        r@.len() == v@.len(),
        forall|i: int| 0 <= i < v@.len() ==> (#[trigger] r@[i])@ == v@[i]@,
        r@.map_values(|route: Vec<usize>| route@) == v@.map_values(|route: Vec<usize>| route@),
{
    let mut out: Vec<Vec<usize>> = Vec::new();
    let n: usize = v.len();
    for i in 0..n
        invariant
            n == v@.len(),
            out@.len() == i,
            forall|j: int| 0 <= j < i ==> (#[trigger] out@[j])@ == v@[j]@,
    {
        out.push(copy_indices(&v[i]));
    }
    proof {
        assert(out@.map_values(|route: Vec<usize>| route@) =~= v@.map_values(
            |route: Vec<usize>| route@,
        ));
    }
    out
}

/// The locations behind a route of arena indices.
fn locations_of(warehouse: &Location, customers: &Vec<Location>, route: &Vec<usize>) -> (r: Vec<
    Location,
>)
    ensures
        r@ == spec_locs_of(*warehouse, customers@, route@),
        r@.len() == route@.len(),
{
    let mut out: Vec<Location> = Vec::new();
    let n: usize = route.len();
    for i in 0..n
        invariant
            n == route@.len(),
            out@.len() == i,
            forall|j: int|
                0 <= j < i ==> (#[trigger] out@[j]) == spec_loc_of(
                    *warehouse,
                    customers@,
                    route@[j] as int,
                ),
    {
        out.push(location_at(warehouse, customers, route[i]));
    }
    proof {
        assert(out@ =~= spec_locs_of(*warehouse, customers@, route@));
    }
    out
}

/// Total cost of an index solution.
fn idx_solution_cost(warehouse: &Location, customers: &Vec<Location>, sol: &Vec<Vec<usize>>) -> (c:
    u64)
    requires
        customers@.len() < 65535,
        sol@.len() <= 65535,
        forall|i: int| 0 <= i < sol@.len() ==> (#[trigger] sol@[i])@.len() <= customers@.len(),
    ensures
        c == spec_idx_solution_cost(*warehouse, customers@, sol@.map_values(|r: Vec<usize>| r@)),
        c <= sol@.len() * crate::route::MAX_ROUTE_COST,
{
    let ghost all = sol@.map_values(|r: Vec<usize>| r@);
    let n: usize = sol.len();
    let mut total: u64 = 0;
    for i in 0..n
        invariant
            n == sol@.len() <= 65535,
            customers@.len() < 65535,
            all == sol@.map_values(|r: Vec<usize>| r@),
            forall|j: int| 0 <= j < sol@.len() ==> (#[trigger] sol@[j])@.len() <= customers@.len(),
            total == spec_idx_solution_cost(*warehouse, customers@, all.take(i as int)),
            total <= i * crate::route::MAX_ROUTE_COST,
    {
        let locs: Vec<Location> = locations_of(warehouse, customers, &sol[i]);
        let route_obj = crate::route::Route { warehouse: *warehouse, customers: locs };
        let route_cost: u64 = route_obj.total_cost();
        proof {
            assert(all.take(i + 1).drop_last() =~= all.take(i as int));
            assert(all.take(i + 1).last() == all[i as int]);
            crate::route::lemma_route_cost_bounds(*warehouse, route_obj.customers@, true);
        }
        total = total + route_cost;
    }
    proof {
        assert(all.take(n as int) =~= all);
    }
    total
}

impl crate::vrp::Vrp {
    /// Run the ant-colony search on this instance. The whole run is a pure
    /// function of the instance and the parameters (seed included): the
    /// result's routes, coverage flag and cost history are exactly those of
    /// the engine state after `max_iter` iterations, so two runs with equal
    /// inputs return equal results. The history records the best-known cost
    /// at the end of every iteration, `u64::MAX` while no complete solution
    /// has been found yet. A best-known solution exists in the
    /// result exactly when some trial covered every customer within the
    /// fleet-size limit; otherwise the result is the distinct
    /// infeasible-coverage outcome: no routes and a cleared coverage flag.
    pub fn aco_heuristic(&self, params: &AcoParams) -> (r: crate::vrp_result::VrpResult)
        requires
            params.spec_valid(),
            self.customers@.len() < 65535,
        ensures
            ({
                let fin = spec_engine(
                    self.warehouse,
                    self.customers@,
                    self.vehicle_capacity as int,
                    self.n_vehicles as int,
                    self.customers@.len() + 1 as int,
                    *params,
                    params.max_iter as nat,
                );
                &&& r.heuristic_cost_history matches Some(h) && h@ == fin.3
                &&& r.coverage_complete == (fin.1 is Some)
                &&& (fin.1 matches Some(b) ==> spec_covering_solution(
                    self.customers@.len() as int,
                    b.0,
                ))
                &&& match fin.1 {
                    None => r.routes@.len() == 0,
                    Some(b) => r.routes@.len() == b.0.len() && forall|i: int|
                        0 <= i < r.routes@.len() ==> (#[trigger] r.routes@[i]).warehouse
                            == self.warehouse && r.routes@[i].customers@ == spec_locs_of(
                            self.warehouse,
                            self.customers@,
                            b.0[i],
                        ),
                }
            }),
            r.n_vehicles == self.n_vehicles,
            r.vehicle_capacity == self.vehicle_capacity,
            (r.coord_bounds.0 as int, r.coord_bounds.1 as int, r.coord_bounds.2 as int, r.coord_bounds.3 as int)
                == crate::vrp::spec_coord_bounds(self.warehouse, self.customers@),
    {
        let m: usize = self.customers.len() + 1;
        let mut tau: Vec<u64> = uniform_pheromones(m, params.pheromone_amt);
        let mut rng = crate::rng::Rng64::new(params.seed);
        let mut best_routes: Vec<Vec<usize>> = Vec::new();
        let mut best_cost: u64 = 0;
        let mut has_best: bool = false;
        let ghost mut best_ghost: Option<(Seq<Seq<usize>>, int)> = None::<(Seq<Seq<usize>>, int)>;
        let mut stagnation: u16 = 0;
        let mut history: Vec<u64> = Vec::new();
        for it in 0..params.max_iter
            invariant
                m == self.customers@.len() + 1,
                m <= 65535,
                params.spec_valid(),
                ({
                    let eng = spec_engine(
                        self.warehouse,
                        self.customers@,
                        self.vehicle_capacity as int,
                        self.n_vehicles as int,
                        m as int,
                        *params,
                        it as nat,
                    );
                    tau@ == eng.0 && best_ghost == eng.1 && stagnation as int == eng.2 && history@
                        == eng.3 && rng.state == eng.4
                }),
                spec_tau_wf(tau@, m as int),
                has_best <==> best_ghost is Some,
                has_best ==> best_ghost->Some_0.0 == best_routes@.map_values(
                    |r2: Vec<usize>| r2@,
                ) && best_ghost->Some_0.1 == best_cost as int,
                best_routes@.len() <= 65535,
                forall|i: int|
                    0 <= i < best_routes@.len() ==> (#[trigger] best_routes@[i])@.len()
                        <= self.customers@.len() && spec_route_indices_wf(
                        best_routes@[i]@,
                        m as int,
                    ),
                stagnation < params.max_r,
        {
            let ghost eng_prev = spec_engine(
                self.warehouse,
                self.customers@,
                self.vehicle_capacity as int,
                self.n_vehicles as int,
                m as int,
                *params,
                it as nat,
            );
            let ghost rng0 = rng.state;
            let ghost trials_full = spec_trials(
                self.warehouse,
                self.customers@,
                self.vehicle_capacity as int,
                self.n_vehicles as int,
                tau@,
                m as int,
                params.alpha as nat,
                params.beta as nat,
                params.q0 as int,
                params.n_ants as nat,
                rng0,
            );
            let mut trials: Vec<(Vec<Vec<usize>>, bool)> = Vec::new();
            let ghost mut trials_ghost: Seq<(Seq<Seq<usize>>, Seq<usize>)> = Seq::<(
                Seq<Seq<usize>>,
                Seq<usize>,
            )>::empty();
            proof {
                assert(Seq::<(Seq<Seq<usize>>, Seq<usize>)>::empty() + trials_full.0
                    =~= trials_full.0);
            }
            for a in 0..params.n_ants
                invariant
                    m == self.customers@.len() + 1,
                    m <= 65535,
                    params.spec_valid(),
                    spec_tau_wf(tau@, m as int),
                    trials_full == spec_trials(
                        self.warehouse,
                        self.customers@,
                        self.vehicle_capacity as int,
                        self.n_vehicles as int,
                        tau@,
                        m as int,
                        params.alpha as nat,
                        params.beta as nat,
                        params.q0 as int,
                        params.n_ants as nat,
                        rng0,
                    ),
                    trials_ghost.len() == a,
                    trials@.len() == a,
                    trials_full.0 == trials_ghost + spec_trials(
                        self.warehouse,
                        self.customers@,
                        self.vehicle_capacity as int,
                        self.n_vehicles as int,
                        tau@,
                        m as int,
                        params.alpha as nat,
                        params.beta as nat,
                        params.q0 as int,
                        (params.n_ants - a) as nat,
                        rng.state,
                    ).0,
                    trials_full.1 == spec_trials(
                        self.warehouse,
                        self.customers@,
                        self.vehicle_capacity as int,
                        self.n_vehicles as int,
                        tau@,
                        m as int,
                        params.alpha as nat,
                        params.beta as nat,
                        params.q0 as int,
                        (params.n_ants - a) as nat,
                        rng.state,
                    ).1,
                    forall|i: int|
                        0 <= i < trials@.len() ==> ((#[trigger] trials@[i]).0@.map_values(
                            |r2: Vec<usize>| r2@,
                        ) == trials_ghost[i].0 && trials@[i].1 == (trials_ghost[i].1.len() == 0)
                            && trials@[i].0@.len() <= self.n_vehicles && (forall|j: int|
                            0 <= j < trials@[i].0@.len() ==> (#[trigger] trials@[i].0@[j])@.len()
                                <= self.customers@.len() && spec_route_indices_wf(
                                trials@[i].0@[j]@,
                                m as int,
                            ))),
            {
                let ghost pre_state = rng.state;
                let picked = construct_trial(
                    &self.warehouse,
                    &self.customers,
                    self.vehicle_capacity,
                    self.n_vehicles,
                    &tau,
                    m,
                    params,
                    &mut rng,
                );
                proof {
                    let t = spec_trial(
                        self.warehouse,
                        self.customers@,
                        self.vehicle_capacity as int,
                        self.n_vehicles as int,
                        tau@,
                        m as int,
                        params.alpha as nat,
                        params.beta as nat,
                        params.q0 as int,
                        spec_index_list(self.customers@.len()),
                        0,
                        pre_state,
                        self.customers@.len(),
                    );
                    let future = spec_trials(
                        self.warehouse,
                        self.customers@,
                        self.vehicle_capacity as int,
                        self.n_vehicles as int,
                        tau@,
                        m as int,
                        params.alpha as nat,
                        params.beta as nat,
                        params.q0 as int,
                        (params.n_ants - a - 1) as nat,
                        rng.state,
                    );
                    assert(trials_ghost + (seq![(t.0, t.1)] + future.0) =~= trials_ghost.push(
                        (t.0, t.1),
                    ) + future.0);
                    trials_ghost = trials_ghost.push((t.0, t.1));
                }
                trials.push(picked);
            }
            proof {
                assert(trials_ghost + Seq::<(Seq<Seq<usize>>, Seq<usize>)>::empty()
                    =~= trials_ghost);
                assert(trials_full.0 == trials_ghost);
                assert(trials_full.1 == rng.state);
            }
            let ghost best0 = best_ghost;
            let mut improved: bool = false;
            let tn: usize = trials.len();
            proof {
                assert(trials_ghost.take(0) =~= Seq::<(Seq<Seq<usize>>, Seq<usize>)>::empty());
            }
            for i in 0..tn
                invariant
                    m == self.customers@.len() + 1,
                    m <= 65535,
                    tn == trials@.len() == trials_ghost.len(),
                    forall|l: int|
                        0 <= l < trials@.len() ==> ((#[trigger] trials@[l]).0@.map_values(
                            |r2: Vec<usize>| r2@,
                        ) == trials_ghost[l].0 && trials@[l].1 == (trials_ghost[l].1.len() == 0)
                            && trials@[l].0@.len() <= self.n_vehicles && (forall|j: int|
                            0 <= j < trials@[l].0@.len() ==> (#[trigger] trials@[l].0@[j])@.len()
                                <= self.customers@.len() && spec_route_indices_wf(
                                trials@[l].0@[j]@,
                                m as int,
                            ))),
                    best_ghost == spec_eval(
                        self.warehouse,
                        self.customers@,
                        trials_ghost.take(i as int),
                        best0,
                    ),
                    has_best <==> best_ghost is Some,
                    has_best ==> best_ghost->Some_0.0 == best_routes@.map_values(
                        |r2: Vec<usize>| r2@,
                    ) && best_ghost->Some_0.1 == best_cost as int,
                    best_routes@.len() <= 65535,
                    forall|l: int|
                        0 <= l < best_routes@.len() ==> (#[trigger] best_routes@[l])@.len()
                            <= self.customers@.len() && spec_route_indices_wf(
                            best_routes@[l]@,
                            m as int,
                        ),
                    improved ==> (best_ghost is Some && match best0 {
                        None => true,
                        Some(b0) => best_ghost->Some_0.1 < b0.1,
                    }),
                    !improved ==> best_ghost == best0,
            {
                proof {
                    assert(trials_ghost.take(i + 1).drop_last() =~= trials_ghost.take(i as int));
                    assert(trials_ghost.take(i + 1).last() == trials_ghost[i as int]);
                }
                let complete: bool = trials[i].1;
                if complete {
                    let cost: u64 = idx_solution_cost(
                        &self.warehouse,
                        &self.customers,
                        &trials[i].0,
                    );
                    if !has_best || cost < best_cost {
                        best_routes = copy_index_routes(&trials[i].0);
                        best_cost = cost;
                        has_best = true;
                        improved = true;
                        proof {
                            best_ghost = Some((trials_ghost[i as int].0, cost as int));
                        }
                    }
                }
            }
            proof {
                assert(trials_ghost.take(tn as int) =~= trials_ghost);
            }
            let best_amount: u64 = if has_best {
                params.rho as u64 / (if best_cost < 1 {
                    1
                } else {
                    best_cost
                })
            } else {
                0
            };
            let ghost tau_before = tau@;
            evaporate(&mut tau, params.rho);
            proof {
                lemma_evaporated_wf(tau_before, m as int, params.rho as int);
            }
            if has_best {
                deposit_solution(&mut tau, m, &best_routes, best_amount);
            }
            let ghost tau_reinforced = tau@;
            proof {
                assert(trials_ghost.skip(0) =~= trials_ghost);
            }
            let all_amount: u64 = {
                proof {
                    assert(params.rho as int * params.pheromone_amt as int <= 1000000
                        * 1000000000000) by (nonlinear_arith)
                        requires
                            params.rho <= 1000000,
                            params.pheromone_amt <= 1000000000000;
                }
                params.rho as u64 * params.pheromone_amt / FIXED_ONE
            };
            for i in 0..tn
                invariant
                    m == self.customers@.len() + 1,
                    m <= 65535,
                    tn == trials@.len() == trials_ghost.len(),
                    all_amount <= TAU_CAP,
                    forall|l: int|
                        0 <= l < trials@.len() ==> ((#[trigger] trials@[l]).0@.map_values(
                            |r2: Vec<usize>| r2@,
                        ) == trials_ghost[l].0 && (forall|j: int|
                            0 <= j < trials@[l].0@.len() ==> (#[trigger] trials@[l].0@[j])@.len()
                                <= self.customers@.len() && spec_route_indices_wf(
                                trials@[l].0@[j]@,
                                m as int,
                            ))),
                    tau@.len() == m * m,
                    forall|k: int| 0 <= k < tau@.len() ==> tau@[k] <= TAU_CAP,
                    spec_penalized(tau_reinforced, m as int, trials_ghost, all_amount as int)
                        == spec_penalized(
                        tau@,
                        m as int,
                        trials_ghost.skip(i as int),
                        all_amount as int,
                    ),
            {
                proof {
                    let sk = trials_ghost.skip(i as int);
                    assert(sk[0] == trials_ghost[i as int]);
                    assert(sk.drop_first() =~= trials_ghost.skip(i + 1));
                }
                deposit_solution(&mut tau, m, &trials[i].0, all_amount);
            }
            proof {
                assert(trials_ghost.skip(tn as int) =~= Seq::<(Seq<Seq<usize>>, Seq<usize>)>::empty());
            }
            let next_stagnation: u16 = if improved {
                0
            } else {
                stagnation + 1
            };
            if next_stagnation >= params.max_r {
                tau = uniform_pheromones(m, params.pheromone_amt);
                if has_best {
                    deposit_solution(&mut tau, m, &best_routes, best_amount);
                }
                stagnation = 0;
            } else {
                stagnation = next_stagnation;
            }
            history.push(
                if has_best {
                    best_cost
                } else {
                    u64::MAX
                },
            );
            proof {
                let it_spec = spec_iteration(
                    self.warehouse,
                    self.customers@,
                    self.vehicle_capacity as int,
                    self.n_vehicles as int,
                    m as int,
                    *params,
                    eng_prev.0,
                    eng_prev.1,
                    eng_prev.2,
                    eng_prev.4,
                );
                assert(spec_engine(
                    self.warehouse,
                    self.customers@,
                    self.vehicle_capacity as int,
                    self.n_vehicles as int,
                    m as int,
                    *params,
                    (it + 1) as nat,
                ) == (it_spec.0, it_spec.1, it_spec.2, eng_prev.3.push(it_spec.3), it_spec.4));
            }
        }
        let mut routes: Vec<crate::route::Route> = Vec::new();
        if has_best {
            let bn: usize = best_routes.len();
            for i in 0..bn
                invariant
                    bn == best_routes@.len(),
                    routes@.len() == i,
                    forall|j: int|
                        0 <= j < i ==> (#[trigger] routes@[j]).warehouse == self.warehouse
                            && routes@[j].customers@ == spec_locs_of(
                            self.warehouse,
                            self.customers@,
                            best_routes@[j]@,
                        ),
            {
                let locs: Vec<Location> = locations_of(
                    &self.warehouse,
                    &self.customers,
                    &best_routes[i],
                );
                routes.push(crate::route::Route { warehouse: self.warehouse, customers: locs });
            }
        }
        proof {
            lemma_engine_best_covers(
                self.warehouse,
                self.customers@,
                self.vehicle_capacity as int,
                self.n_vehicles as int,
                m as int,
                *params,
                params.max_iter as nat,
            );
        }
        let bounds: (i32, i32, i32, i32) = self.get_coord_bounds();
        crate::vrp_result::VrpResult {
            n_vehicles: self.n_vehicles,
            vehicle_capacity: self.vehicle_capacity,
            routes,
            coord_bounds: bounds,
            heuristic_cost_history: Some(history),
            coverage_complete: has_best,
        }
    }
}

} // verus!
