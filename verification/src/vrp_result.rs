//! An immutable snapshot of a multi-route solution: the fleet parameters it
//! was computed under, the routes, the plotting window, the optional
//! per-iteration cost history, and whether the routes cover every customer.

use crate::route::{Route, MAX_ROUTE_STOPS};
use crate::vrp::{
    routes_cost, spec_coord_bounds, spec_routes_cost, spec_routes_within_stops, Vrp,
    MAX_FLEET_ROUTES,
};
use vstd::prelude::*;

verus! {

/// A finished multi-route solution, handed to external reporting.
#[derive(Debug)]
pub struct VrpResult {
    pub n_vehicles: u16,
    pub vehicle_capacity: u16,
    pub routes: Vec<Route>,
    pub coord_bounds: (i32, i32, i32, i32),
    pub heuristic_cost_history: Option<Vec<u64>>,
    /// Whether the routes cover every customer of the instance; a solution
    /// cut short by the fleet-size limit is surfaced here, never silently
    /// treated as complete.
    pub coverage_complete: bool,
}

impl VrpResult {
    /// A snapshot of the given routes against the instance's fleet
    /// parameters and plotting window; coverage is claimed complete.
    pub fn from_vrp(vrp: &Vrp, routes: Vec<Route>, heuristic_cost_history: Option<Vec<u64>>) -> (r:
        VrpResult)
        ensures
            r.n_vehicles == vrp.n_vehicles,
            r.vehicle_capacity == vrp.vehicle_capacity,
            r.routes@ == routes@,
            (r.coord_bounds.0 as int, r.coord_bounds.1 as int, r.coord_bounds.2 as int, r.coord_bounds.3 as int)
                == spec_coord_bounds(vrp.warehouse, vrp.customers@),
            r.heuristic_cost_history == heuristic_cost_history,
            r.coverage_complete,
    {
        VrpResult {
            n_vehicles: vrp.n_vehicles,
            vehicle_capacity: vrp.vehicle_capacity,
            routes,
            coord_bounds: vrp.get_coord_bounds(),
            heuristic_cost_history,
            coverage_complete: true,
        }
    }

    /// Sum of the total costs of this solution's routes.
    pub fn total_cost(&self) -> (c: u64)
        requires
            self.routes@.len() <= MAX_FLEET_ROUTES,
            spec_routes_within_stops(self.routes@),
        ensures
            c == spec_routes_cost(self.routes@, true),
    {
        routes_cost(&self.routes, true)
    }

    /// Sum of the total costs of the given routes.
    pub fn total_cost_with(&self, routes: &Vec<Route>) -> (c: u64)
        requires
            routes@.len() <= MAX_FLEET_ROUTES,
            spec_routes_within_stops(routes@),
        ensures
            c == spec_routes_cost(routes@, true),
    {
        routes_cost(routes, true)
    }

    /// Sum of the total costs of this solution's routes, without service
    /// times.
    pub fn total_cost_no_service_time(&self) -> (c: u64)
        requires
            self.routes@.len() <= MAX_FLEET_ROUTES,
            spec_routes_within_stops(self.routes@),
        ensures
            c == spec_routes_cost(self.routes@, false),
    {
        routes_cost(&self.routes, false)
    }

    /// Sum of the total costs of the given routes, without service times.
    pub fn total_cost_no_service_time_with(&self, routes: &Vec<Route>) -> (c: u64)
        requires
            routes@.len() <= MAX_FLEET_ROUTES,
            spec_routes_within_stops(routes@),
        ensures
            c == spec_routes_cost(routes@, false),
    {
        routes_cost(routes, false)
    }
}

} // verus!
