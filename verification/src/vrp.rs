//! A full problem instance: one depot, the customer set and the fleet
//! parameters, with load-time feasibility validation and solution cost
//! aggregates.

use crate::location::Location;
use crate::route::{
    lemma_route_cost_bounds, spec_route_cost_of, Route, MAX_ROUTE_COST, MAX_ROUTE_STOPS,
};
use vstd::prelude::*;

verus! {

/// Largest number of routes a solution may hold; keeps every solution cost
/// far below `u64::MAX`.
pub const MAX_FLEET_ROUTES: usize = 100000;

/// Why a problem instance is rejected at load time instead of failing
/// mid-search.
#[derive(Clone, Copy, Debug, PartialEq, Eq, Structural)]
pub enum InstanceError {
    /// The customer at this position has a demand above the vehicle
    /// capacity, so no route could ever serve it.
    DemandExceedsCapacity { index: usize },
    /// The customer at this position cannot be reached from the depot
    /// within its own due date, so no route could ever serve it.
    CustomerUnreachable { index: usize },
}

/// A customer that some vehicle could serve on a route of its own: its
/// demand fits the capacity and the depot reaches it within its due date.
pub open spec fn spec_customer_serviceable(warehouse: Location, c: Location, capacity: int) -> bool {
    c.demand <= capacity && warehouse.spec_distance(c) <= c.due_date
}

/// Every customer of the instance is serviceable.
pub open spec fn spec_instance_feasible(
    warehouse: Location,
    customers: Seq<Location>,
    capacity: int,
) -> bool {
    forall|i: int|
        0 <= i < customers.len() ==> spec_customer_serviceable(
            warehouse,
            #[trigger] customers[i],
            capacity,
        )
}

/// Sum of the total costs of a sequence of routes.
pub open spec fn spec_routes_cost(routes: Seq<Route>, with_service: bool) -> int
    decreases routes.len(),
{
    if routes.len() == 0 {
        0
    } else {
        spec_routes_cost(routes.drop_last(), with_service) + routes.last().spec_total_cost(
            with_service,
        )
    }
}

/// Every route of the sequence stays within the per-route stop bound.
pub open spec fn spec_routes_within_stops(routes: Seq<Route>) -> bool {
    forall|i: int|
        0 <= i < routes.len() ==> (#[trigger] routes[i]).customers@.len() <= MAX_ROUTE_STOPS
}

/// Smallest x coordinate among the locations.
pub open spec fn spec_lowest_x(s: Seq<Location>) -> int
    decreases s.len(),
{
    if s.len() <= 1 {
        s[0].x as int
    } else {
        let m = spec_lowest_x(s.drop_last());
        if s.last().x < m {
            s.last().x as int
        } else {
            m
        }
    }
}

/// Largest x coordinate among the locations.
pub open spec fn spec_highest_x(s: Seq<Location>) -> int
    decreases s.len(),
{
    if s.len() <= 1 {
        s[0].x as int
    } else {
        let m = spec_highest_x(s.drop_last());
        if s.last().x > m {
            s.last().x as int
        } else {
            m
        }
    }
}

/// Smallest y coordinate among the locations.
pub open spec fn spec_lowest_y(s: Seq<Location>) -> int
    decreases s.len(),
{
    if s.len() <= 1 {
        s[0].y as int
    } else {
        let m = spec_lowest_y(s.drop_last());
        if s.last().y < m {
            s.last().y as int
        } else {
            m
        }
    }
}

/// Largest y coordinate among the locations.
pub open spec fn spec_highest_y(s: Seq<Location>) -> int
    decreases s.len(),
{
    if s.len() <= 1 {
        s[0].y as int
    } else {
        let m = spec_highest_y(s.drop_last());
        if s.last().y > m {
            s.last().y as int
        } else {
            m
        }
    }
}

/// The plotting window around an instance: the coordinate extremes of the
/// depot and the customers, widened by 10 on every side.
pub open spec fn spec_coord_bounds(warehouse: Location, customers: Seq<Location>) -> (
    int,
    int,
    int,
    int,
) {
    let all = seq![warehouse] + customers;
    (
        spec_lowest_x(all) - 10,
        spec_highest_x(all) + 10,
        spec_lowest_y(all) - 10,
        spec_highest_y(all) + 10,
    )
}

/// A problem instance: depot, customers and fleet parameters, plus the
/// routes of the solution currently attached to it.
#[derive(Clone, Debug)]
pub struct Vrp {
    pub warehouse: Location,
    pub customers: Vec<Location>,
    pub n_vehicles: u16,
    pub vehicle_capacity: u16,
    pub routes: Vec<Route>,
    pub heuristic_cost_history: Option<Vec<u64>>,
}

impl Vrp {
    /// A fresh instance with no routes attached yet.
    pub fn new(
        warehouse: Location,
        customers: Vec<Location>,
        n_vehicles: u16,
        vehicle_capacity: u16,
    ) -> (v: Vrp)
        ensures
            v.warehouse == warehouse,
            v.customers@ == customers@,
            v.n_vehicles == n_vehicles,
            v.vehicle_capacity == vehicle_capacity,
            v.routes@.len() == 0,
            v.heuristic_cost_history is None,
    {
        Vrp {
            warehouse,
            customers,
            n_vehicles,
            vehicle_capacity,
            routes: Vec::new(),
            heuristic_cost_history: None,
        }
    }

    /// Every customer of this instance is serviceable by a vehicle on a
    /// route of its own.
    pub open spec fn spec_feasible(self) -> bool {
        spec_instance_feasible(self.warehouse, self.customers@, self.vehicle_capacity as int)
    }

    /// Check the instance at load time: report the first customer whose
    /// demand alone exceeds the vehicle capacity, or which the depot cannot
    /// reach within its due date. `Ok` exactly when the instance is
    /// feasible.
    pub fn validate(&self) -> (r: Result<(), InstanceError>)
        ensures
            r is Ok <==> self.spec_feasible(),
            match r {
                Ok(()) => self.spec_feasible(),
                Err(e) => {
                    let cs = self.customers@;
                    match e {
                        InstanceError::DemandExceedsCapacity { index } => 0 <= index < cs.len()
                            && cs[index as int].demand > self.vehicle_capacity && (forall|j: int|
                            0 <= j < index ==> spec_customer_serviceable(
                                self.warehouse,
                                #[trigger] cs[j],
                                self.vehicle_capacity as int,
                            )),
                        InstanceError::CustomerUnreachable { index } => 0 <= index < cs.len()
                            && cs[index as int].demand <= self.vehicle_capacity
                            && self.warehouse.spec_distance(cs[index as int]) > cs[
                            index as int
                        ].due_date && (forall|j: int|
                            0 <= j < index ==> spec_customer_serviceable(
                                self.warehouse,
                                #[trigger] cs[j],
                                self.vehicle_capacity as int,
                            )),
                    }
                },
            },
    {
        let n: usize = self.customers.len();
        for i in 0..n
            invariant
                n == self.customers@.len(),
                forall|j: int|
                    0 <= j < i ==> spec_customer_serviceable(
                        self.warehouse,
                        #[trigger] self.customers@[j],
                        self.vehicle_capacity as int,
                    ),
        {
            let c: Location = self.customers[i];
            if c.demand > self.vehicle_capacity {
                return Err(InstanceError::DemandExceedsCapacity { index: i });
            }
            if self.warehouse.distance_to(&c) > c.due_date as u64 {
                return Err(InstanceError::CustomerUnreachable { index: i });
            }
        }
        Ok(())
    }

    /// Sum of the total costs of the routes attached to this instance.
    pub fn total_cost(&self) -> (c: u64)
        requires
            self.routes@.len() <= MAX_FLEET_ROUTES,
            spec_routes_within_stops(self.routes@),
        ensures
            c == spec_routes_cost(self.routes@, true),
    {
        routes_cost(&self.routes, true)
    }

    /// Sum of the total costs of the given routes.
    pub fn total_cost_with(&self, routes: &Vec<Route>) -> (c: u64)
        requires
            routes@.len() <= MAX_FLEET_ROUTES,
            spec_routes_within_stops(routes@),
        ensures
            c == spec_routes_cost(routes@, true),
    {
        routes_cost(routes, true)
    }

    /// Sum of the total costs of the attached routes, without service times.
    pub fn total_cost_no_service_time(&self) -> (c: u64)
        requires
            self.routes@.len() <= MAX_FLEET_ROUTES,
            spec_routes_within_stops(self.routes@),
        ensures
            c == spec_routes_cost(self.routes@, false),
    {
        routes_cost(&self.routes, false)
    }

    /// Sum of the total costs of the given routes, without service times.
    pub fn total_cost_no_service_time_with(&self, routes: &Vec<Route>) -> (c: u64)
        requires
            routes@.len() <= MAX_FLEET_ROUTES,
            spec_routes_within_stops(routes@),
        ensures
            c == spec_routes_cost(routes@, false),
    {
        routes_cost(routes, false)
    }

    /// The plotting window around this instance.
    pub fn get_coord_bounds(&self) -> (b: (i32, i32, i32, i32))
        ensures
            (b.0 as int, b.1 as int, b.2 as int, b.3 as int) == spec_coord_bounds(
                self.warehouse,
                self.customers@,
            ),
    {
        let ghost all = seq![self.warehouse] + self.customers@;
        let mut lo_x: i32 = self.warehouse.x as i32;
        let mut hi_x: i32 = self.warehouse.x as i32;
        let mut lo_y: i32 = self.warehouse.y as i32;
        let mut hi_y: i32 = self.warehouse.y as i32;
        let n: usize = self.customers.len();
        proof {
            assert(all.take(1) =~= seq![self.warehouse]);
        }
        for i in 0..n
            invariant
                n == self.customers@.len(),
                all == seq![self.warehouse] + self.customers@,
                lo_x == spec_lowest_x(all.take(i + 1)),
                hi_x == spec_highest_x(all.take(i + 1)),
                lo_y == spec_lowest_y(all.take(i + 1)),
                hi_y == spec_highest_y(all.take(i + 1)),
                -65535 <= lo_x <= 65535 && -65535 <= hi_x <= 65535,
                -65535 <= lo_y <= 65535 && -65535 <= hi_y <= 65535,
        {
            let c: Location = self.customers[i];
            proof {
                assert(all.take(i + 2).drop_last() =~= all.take(i + 1));
                assert(all.take(i + 2).last() == c);
            }
            if (c.x as i32) < lo_x {
                lo_x = c.x as i32;
            }
            if (c.x as i32) > hi_x {
                hi_x = c.x as i32;
            }
            if (c.y as i32) < lo_y {
                lo_y = c.y as i32;
            }
            if (c.y as i32) > hi_y {
                hi_y = c.y as i32;
            }
        }
        proof {
            assert(all.take(n + 1) =~= all);
        }
        (lo_x - 10, hi_x + 10, lo_y - 10, hi_y + 10)
    }
}

/// Sum of the total costs of the given routes.
pub fn routes_cost(routes: &Vec<Route>, with_service: bool) -> (c: u64)
    requires
        routes@.len() <= MAX_FLEET_ROUTES,
        spec_routes_within_stops(routes@),
    ensures
        c == spec_routes_cost(routes@, with_service),
{
    let n: usize = routes.len();
    let mut sum: u64 = 0;
    for i in 0..n
        invariant
            n == routes@.len() <= MAX_FLEET_ROUTES,
            spec_routes_within_stops(routes@),
            sum == spec_routes_cost(routes@.take(i as int), with_service),
            sum <= i * MAX_ROUTE_COST,
    {
        let r: &Route = &routes[i];
        proof {
            assert(routes@.take(i + 1).drop_last() =~= routes@.take(i as int));
            assert(routes@.take(i + 1).last() == routes@[i as int]);
            lemma_route_cost_bounds(r.warehouse, r.customers@, with_service);
        }
        sum = sum + r.total_cost_flagged(with_service);
    }
    proof {
        assert(routes@.take(n as int) =~= routes@);
    }
    sum
}

} // verus!
