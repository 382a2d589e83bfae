//! The nearest-feasible greedy construction heuristic: build routes one at
//! a time, always serving the deliverable customer that is cheapest to
//! reach next, and start a new route whenever no customer is deliverable.

use crate::location::{
    clone_locations, lemma_arrival_cost_bounds, lemma_cheapest_idx_min,
    lemma_deliverable_complete, lemma_deliverable_len, lemma_deliverable_sound,
    lemma_remove_all_complete, lemma_remove_all_shorter, lemma_remove_all_sound,
    spec_cheapest_idx, spec_deliverable, spec_remove_all, Location, MAX_COST_STEP,
};
use crate::route::{Route, MAX_ROUTE_STOPS};
use crate::vrp::{spec_coord_bounds, spec_customer_serviceable, Vrp};
use crate::vrp_result::VrpResult;
use vstd::prelude::*;

verus! {

/// One greedy route from `current`: repeatedly serve the deliverable
/// candidate of least arrival cost, until none is deliverable. Yields the
/// customers appended to the route and the candidates left unvisited. The
/// fuel is an upper bound on the number of selections; every caller passes
/// at least the number of candidates, which the result does not depend on.
pub open spec fn spec_greedy_route(
    current: Location,
    unvisited: Seq<Location>,
    cost: int,
    remaining_capacity: int,
    fuel: nat,
) -> (Seq<Location>, Seq<Location>)
    decreases fuel,
{
    if fuel == 0 {
        (Seq::<Location>::empty(), unvisited)
    } else {
        let d = spec_deliverable(current, unvisited, cost, remaining_capacity);
        if d.len() == 0 {
            (Seq::<Location>::empty(), unvisited)
        } else {
            let c = d[spec_cheapest_idx(current, d, cost)];
            let stepped = current.spec_arrival_cost(c, cost, true);
            let rest = spec_remove_all(unvisited, c);
            let tail = spec_greedy_route(
                c,
                rest,
                stepped,
                remaining_capacity - c.demand,
                (fuel - 1) as nat,
            );
            (seq![c] + tail.0, tail.1)
        }
    }
}

/// The greedy multi-route construction: open a route at the depot, fill it
/// greedily, and repeat while customers remain and routes make progress.
pub open spec fn spec_greedy_routes(
    warehouse: Location,
    unvisited: Seq<Location>,
    capacity: int,
    fuel: nat,
) -> Seq<Seq<Location>>
    decreases fuel,
{
    if fuel == 0 || unvisited.len() == 0 {
        Seq::<Seq<Location>>::empty()
    } else {
        let built = spec_greedy_route(warehouse, unvisited, 0, capacity, unvisited.len());
        if built.1.len() < unvisited.len() {
            seq![built.0] + spec_greedy_routes(warehouse, built.1, capacity, (fuel - 1) as nat)
        } else {
            seq![built.0]
        }
    }
}

/// The customer sequences of a list of routes.
pub open spec fn spec_routes_customers(routes: Seq<Route>) -> Seq<Seq<Location>> {
    routes.map_values(|r: Route| r.customers@)
}

/// Some route of the list visits `x`.
pub open spec fn spec_in_some_route(routes: Seq<Route>, x: Location) -> bool {
    exists|i: int| 0 <= i < routes.len() && (#[trigger] routes[i]).customers@.contains(x)
}

/// The routes that the greedy heuristic assigns to an instance.
pub open spec fn spec_nearest_neighbour_routes(
    warehouse: Location,
    customers: Seq<Location>,
    capacity: int,
) -> Seq<Seq<Location>> {
    spec_greedy_routes(warehouse, customers, capacity, customers.len())
}

/// The greedy route does not depend on the fuel, once the fuel covers the
/// number of candidates.
pub proof fn lemma_greedy_route_fuel(
    current: Location,
    unvisited: Seq<Location>,
    cost: int,
    remaining_capacity: int,
    f1: nat,
    f2: nat,
)
    requires
        f1 >= unvisited.len(),
        f2 >= unvisited.len(),
    ensures
        spec_greedy_route(current, unvisited, cost, remaining_capacity, f1) == spec_greedy_route(
            current,
            unvisited,
            cost,
            remaining_capacity,
            f2,
        ),
    decreases f1,
{
    let d = spec_deliverable(current, unvisited, cost, remaining_capacity);
    lemma_deliverable_len(current, unvisited, cost, remaining_capacity);
    if d.len() > 0 {
        lemma_cheapest_idx_min(current, d, cost);
        lemma_deliverable_sound(current, unvisited, cost, remaining_capacity);
        let c = d[spec_cheapest_idx(current, d, cost)];
        assert(unvisited.contains(c));
        lemma_remove_all_shorter(unvisited, c);
        let rest = spec_remove_all(unvisited, c);
        lemma_greedy_route_fuel(
            c,
            rest,
            current.spec_arrival_cost(c, cost, true),
            remaining_capacity - c.demand,
            (f1 - 1) as nat,
            (f2 - 1) as nat,
        );
    }
}

/// The greedy construction does not depend on the fuel, once the fuel
/// covers the number of candidates.
pub proof fn lemma_greedy_routes_fuel(
    warehouse: Location,
    unvisited: Seq<Location>,
    capacity: int,
    f1: nat,
    f2: nat,
)
    requires
        f1 >= unvisited.len(),
        f2 >= unvisited.len(),
    ensures
        spec_greedy_routes(warehouse, unvisited, capacity, f1) == spec_greedy_routes(
            warehouse,
            unvisited,
            capacity,
            f2,
        ),
    decreases f1,
{
    if unvisited.len() > 0 {
        let built = spec_greedy_route(warehouse, unvisited, 0, capacity, unvisited.len());
        if built.1.len() < unvisited.len() {
            lemma_greedy_routes_fuel(
                warehouse,
                built.1,
                capacity,
                (f1 - 1) as nat,
                (f2 - 1) as nat,
            );
        }
    }
}

impl Vrp {
    /// Build an initial solution by nearest-feasible greedy construction.
    /// The routes are exactly the greedy construction on this instance, in
    /// order; the result carries this instance's fleet parameters and no
    /// cost history. Requires a feasible instance, which `validate` checks
    /// at load time.
    pub fn nearest_neighbour_heuristic(&self) -> (r: VrpResult)
        requires
            self.spec_feasible(),
            self.customers@.len() <= MAX_ROUTE_STOPS,
        ensures
            spec_routes_customers(r.routes@) == spec_nearest_neighbour_routes(
                self.warehouse,
                self.customers@,
                self.vehicle_capacity as int,
            ),
            forall|i: int|
                0 <= i < r.routes@.len() ==> (#[trigger] r.routes@[i]).warehouse
                    == self.warehouse,
            r.n_vehicles == self.n_vehicles,
            r.vehicle_capacity == self.vehicle_capacity,
            (r.coord_bounds.0 as int, r.coord_bounds.1 as int, r.coord_bounds.2 as int, r.coord_bounds.3 as int)
                == spec_coord_bounds(self.warehouse, self.customers@),
            r.heuristic_cost_history is None,
            r.coverage_complete,
            forall|x: Location|
                #[trigger] self.customers@.contains(x) ==> spec_in_some_route(r.routes@, x),
            forall|i: int, j: int|
                0 <= i < r.routes@.len() && 0 <= j < r.routes@[i].customers@.len()
                    ==> self.customers@.contains(#[trigger] r.routes@[i].customers@[j]),
    {
        let ghost target = spec_nearest_neighbour_routes(
            self.warehouse,
            self.customers@,
            self.vehicle_capacity as int,
        );
        let mut unvisited: Vec<Location> = clone_locations(&self.customers);
        let mut routes: Vec<Route> = Vec::new();
        while unvisited.len() > 0
            invariant
                self.spec_feasible(),
                self.customers@.len() <= MAX_ROUTE_STOPS,
                unvisited@.len() <= self.customers@.len(),
                forall|k: int|
                    0 <= k < unvisited@.len() ==> spec_customer_serviceable(
                        self.warehouse,
                        #[trigger] unvisited@[k],
                        self.vehicle_capacity as int,
                    ),
                forall|i: int|
                    0 <= i < routes@.len() ==> (#[trigger] routes@[i]).warehouse
                        == self.warehouse,
                forall|k: int|
                    0 <= k < unvisited@.len() ==> self.customers@.contains(
                        #[trigger] unvisited@[k],
                    ),
                forall|x: Location|
                    #[trigger] self.customers@.contains(x) ==> unvisited@.contains(x)
                        || spec_in_some_route(routes@, x),
                forall|i: int, j: int|
                    0 <= i < routes@.len() && 0 <= j < routes@[i].customers@.len()
                        ==> self.customers@.contains(#[trigger] routes@[i].customers@[j]),
                target == spec_routes_customers(routes@) + spec_greedy_routes(
                    self.warehouse,
                    unvisited@,
                    self.vehicle_capacity as int,
                    unvisited@.len(),
                ),
            decreases unvisited@.len(),
        {
            let ghost univ_start = unvisited@;
            let mut current: Location = self.warehouse;
            let mut cost: u64 = 0;
            let mut route_customers: Vec<Location> = Vec::new();
            let mut remaining_capacity: u16 = self.vehicle_capacity;
            let mut done: bool = false;
            while !done
                invariant
                    self.spec_feasible(),
                    self.customers@.len() <= MAX_ROUTE_STOPS,
                    univ_start.len() > 0,
                    route_customers@.len() + unvisited@.len() <= self.customers@.len(),
                    cost <= route_customers@.len() * MAX_COST_STEP,
                    forall|k: int|
                        0 <= k < unvisited@.len() ==> spec_customer_serviceable(
                            self.warehouse,
                            #[trigger] unvisited@[k],
                            self.vehicle_capacity as int,
                        ),
                    forall|k: int|
                        0 <= k < unvisited@.len() ==> self.customers@.contains(
                            #[trigger] unvisited@[k],
                        ),
                    route_customers@.len() == 0 ==> current == self.warehouse && cost == 0
                        && remaining_capacity == self.vehicle_capacity && unvisited@ == univ_start
                        && !done,
                    route_customers@.len() > 0 ==> unvisited@.len() < univ_start.len(),
                    forall|k: int|
                        0 <= k < route_customers@.len() ==> self.customers@.contains(
                            #[trigger] route_customers@[k],
                        ),
                    forall|x: Location|
                        #[trigger] self.customers@.contains(x) ==> unvisited@.contains(x)
                            || route_customers@.contains(x) || spec_in_some_route(routes@, x),
                    ({
                        let whole = spec_greedy_route(
                            self.warehouse,
                            univ_start,
                            0,
                            self.vehicle_capacity as int,
                            univ_start.len(),
                        );
                        if done {
                            whole == (route_customers@, unvisited@)
                        } else {
                            let g = spec_greedy_route(
                                current,
                                unvisited@,
                                cost as int,
                                remaining_capacity as int,
                                unvisited@.len(),
                            );
                            whole == (route_customers@ + g.0, g.1)
                        }
                    }),
                decreases unvisited@.len() * 2 + (if done {
                    0int
                } else {
                    1int
                }),
            {
                let snapshot: Vec<Location> = clone_locations(&unvisited);
                let picked = current.find_cheapest_deliverable(
                    snapshot,
                    cost,
                    remaining_capacity,
                );
                match picked {
                    None => {
                        proof {
                            if route_customers@.len() == 0 {
                                let x = unvisited@[0];
                                assert(unvisited@.contains(x));
                                lemma_deliverable_complete(
                                    current,
                                    unvisited@,
                                    cost as int,
                                    remaining_capacity as int,
                                    x,
                                );
                                assert(false);
                            }
                            assert(route_customers@ + Seq::<Location>::empty()
                                =~= route_customers@);
                        }
                        done = true;
                    },
                    Some(chosen) => {
                        let (c, stepped, rest) = chosen;
                        proof {
                            let d = spec_deliverable(
                                current,
                                unvisited@,
                                cost as int,
                                remaining_capacity as int,
                            );
                            lemma_deliverable_len(
                                current,
                                unvisited@,
                                cost as int,
                                remaining_capacity as int,
                            );
                            lemma_cheapest_idx_min(current, d, cost as int);
                            lemma_deliverable_sound(
                                current,
                                unvisited@,
                                cost as int,
                                remaining_capacity as int,
                            );
                            assert(unvisited@.contains(c));
                            lemma_remove_all_shorter(unvisited@, c);
                            lemma_remove_all_sound(unvisited@, c);
                            lemma_arrival_cost_bounds(current, c, cost as int, true);
                            let tail = spec_greedy_route(
                                c,
                                rest@,
                                stepped as int,
                                remaining_capacity - c.demand,
                                (unvisited@.len() - 1) as nat,
                            );
                            lemma_greedy_route_fuel(
                                c,
                                rest@,
                                stepped as int,
                                remaining_capacity - c.demand,
                                (unvisited@.len() - 1) as nat,
                                rest@.len(),
                            );
                            assert(route_customers@ + (seq![c] + tail.0) =~= (
                            route_customers@.push(c) + tail.0));
                            assert forall|k: int| 0 <= k < rest@.len() implies
                                spec_customer_serviceable(
                                    self.warehouse,
                                    #[trigger] rest@[k],
                                    self.vehicle_capacity as int,
                                ) && self.customers@.contains(rest@[k]) by {
                                assert(unvisited@.contains(rest@[k]));
                                let j = choose|j: int|
                                    0 <= j < unvisited@.len() && unvisited@[j] == rest@[k];
                            }
                            assert(self.customers@.contains(c)) by {
                                let j = choose|j: int|
                                    0 <= j < unvisited@.len() && unvisited@[j] == c;
                            }
                            assert forall|x: Location|
                                #[trigger] self.customers@.contains(x) implies rest@.contains(x)
                                || route_customers@.push(c).contains(x) || spec_in_some_route(
                                routes@,
                                x,
                            ) by {
                                if unvisited@.contains(x) {
                                    if x == c {
                                        assert(route_customers@.push(c)[route_customers@.len() as int]
                                            == c);
                                    } else {
                                        lemma_remove_all_complete(unvisited@, c, x);
                                    }
                                } else if route_customers@.contains(x) {
                                    let j = choose|j: int|
                                        0 <= j < route_customers@.len() && route_customers@[j]
                                            == x;
                                    assert(route_customers@.push(c)[j] == x);
                                }
                            }
                        }
                        route_customers.push(c);
                        cost = stepped;
                        current = c;
                        remaining_capacity = remaining_capacity - c.demand;
                        unvisited = rest;
                    },
                }
            }
            let route = Route { warehouse: self.warehouse, customers: route_customers };
            proof {
                let built = spec_greedy_route(
                    self.warehouse,
                    univ_start,
                    0,
                    self.vehicle_capacity as int,
                    univ_start.len(),
                );
                assert(built == (route.customers@, unvisited@));
                assert(unvisited@.len() < univ_start.len());
                lemma_greedy_routes_fuel(
                    self.warehouse,
                    unvisited@,
                    self.vehicle_capacity as int,
                    (univ_start.len() - 1) as nat,
                    unvisited@.len(),
                );
                assert(spec_routes_customers(routes@.push(route)) =~= spec_routes_customers(
                    routes@,
                ).push(route.customers@));
                assert(spec_routes_customers(routes@) + (seq![route.customers@]
                    + spec_greedy_routes(
                    self.warehouse,
                    unvisited@,
                    self.vehicle_capacity as int,
                    unvisited@.len(),
                )) =~= spec_routes_customers(routes@).push(route.customers@)
                    + spec_greedy_routes(
                    self.warehouse,
                    unvisited@,
                    self.vehicle_capacity as int,
                    unvisited@.len(),
                ));
                assert forall|x: Location|
                    #[trigger] self.customers@.contains(x) implies unvisited@.contains(x)
                    || spec_in_some_route(routes@.push(route), x) by {
                    if route.customers@.contains(x) {
                        assert(routes@.push(route)[routes@.len() as int] == route);
                    } else if spec_in_some_route(routes@, x) {
                        let i = choose|i: int|
                            0 <= i < routes@.len() && (#[trigger] routes@[i]).customers@.contains(
                                x,
                            );
                        assert(routes@.push(route)[i] == routes@[i]);
                    }
                }
            }
            routes.push(route);
        }
        proof {
            assert(spec_routes_customers(routes@) + Seq::<Seq<Location>>::empty()
                =~= spec_routes_customers(routes@));
        }
        VrpResult::from_vrp(self, routes, None)
    }
}

} // verus!
