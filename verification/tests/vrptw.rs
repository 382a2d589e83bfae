use solomon_vrptw::heuristics::aco::{
    deposit_solution, evaporate, uniform_pheromones, AcoParams,
};
use solomon_vrptw::location::Location;
use solomon_vrptw::rng::Rng64;
use solomon_vrptw::route::Route;
use solomon_vrptw::vrp::{InstanceError, Vrp};

fn loc(id: u16, x: u16, y: u16, demand: u16, ready: u16, due: u16, service: u16) -> Location {
    Location { id, x, y, demand, ready_time: ready, due_date: due, service_time: service }
}

fn depot() -> Location {
    loc(0, 0, 0, 0, 0, 1000, 0)
}

#[test]
fn distance_is_euclidean_floor() {
    let a = loc(0, 0, 0, 0, 0, 100, 0);
    let b = loc(1, 10, 0, 0, 0, 100, 0);
    assert_eq!(a.distance_to(&b), 10);
    let c = loc(2, 3, 4, 0, 0, 100, 0);
    assert_eq!(a.distance_to(&c), 5);
    let d = loc(3, 1, 1, 0, 0, 100, 0);
    assert_eq!(a.distance_to(&d), 1);
}

#[test]
fn distance_is_symmetric() {
    let a = loc(0, 3, 7, 0, 0, 100, 0);
    let b = loc(1, 20, 2, 0, 0, 100, 0);
    assert_eq!(a.distance_to(&b), b.distance_to(&a));
}

#[test]
fn cost_to_adds_waiting_and_service() {
    let a = depot();
    let b = loc(1, 10, 0, 0, 20, 100, 5);
    // travel 10, wait until 20, serve 5
    assert_eq!(a.cost_to(&b, 0), 25);
    // no waiting when arriving after the window opens
    assert_eq!(a.cost_to(&b, 15), 30);
}

#[test]
fn find_reachable_filters_by_due_date() {
    let a = depot();
    let near = loc(1, 10, 0, 0, 0, 15, 0);
    let late = loc(2, 10, 0, 0, 0, 5, 0);
    let r = a.find_reachable(vec![near, late], 0);
    assert_eq!(r, vec![near]);
}

#[test]
fn find_deliverable_filters_by_capacity() {
    let a = depot();
    let light = loc(1, 10, 0, 5, 0, 100, 0);
    let heavy = loc(2, 10, 0, 50, 0, 100, 0);
    let r = a.find_deliverable(vec![light, heavy], 0, 10);
    assert_eq!(r, vec![light]);
}

#[test]
fn find_cheapest_deliverable_picks_min_and_removes_it() {
    let a = depot();
    let far = loc(1, 20, 0, 5, 0, 100, 0);
    let near = loc(2, 5, 0, 5, 0, 100, 0);
    let (chosen, cost, rest) = a
        .find_cheapest_deliverable(vec![far, near, far], 0, 50)
        .expect("a candidate is deliverable");
    assert_eq!(chosen, near);
    assert_eq!(cost, 5);
    // both copies of the chosen value would go; here the other two stay
    assert_eq!(rest, vec![far, far]);
}

#[test]
fn find_cheapest_deliverable_none_when_nothing_fits() {
    let a = depot();
    let heavy = loc(1, 5, 0, 50, 0, 100, 0);
    assert!(a.find_cheapest_deliverable(vec![heavy], 0, 10).is_none());
}

#[test]
fn route_len_and_stops() {
    let c1 = loc(1, 5, 0, 5, 0, 100, 0);
    let route = Route { warehouse: depot(), customers: vec![c1] };
    assert_eq!(route.len(), 3);
    assert!(!route.is_empty());
    assert_eq!(route.stop(0), depot());
    assert_eq!(route.stop(1), c1);
    assert_eq!(route.stop(2), depot());
    let empty = Route { warehouse: depot(), customers: vec![] };
    assert!(empty.is_empty());
    assert_eq!(empty.len(), 2);
}

#[test]
fn route_totals_on_a_line() {
    let c1 = loc(1, 5, 0, 5, 0, 100, 2);
    let c2 = loc(2, 10, 0, 7, 0, 100, 3);
    let route = Route { warehouse: depot(), customers: vec![c1, c2] };
    assert_eq!(route.total_demand(), 12);
    // legs 5 + 5 + 10, plus service 2 + 3
    assert_eq!(route.total_cost(), 25);
    assert_eq!(route.total_cost_no_service_time(), 20);
    assert_eq!(route.total_distance(), 20);
}

#[test]
fn route_valid_within_capacity_and_windows() {
    let c1 = loc(1, 5, 0, 5, 0, 100, 0);
    let c2 = loc(2, 10, 0, 7, 0, 100, 0);
    let route = Route { warehouse: depot(), customers: vec![c1, c2] };
    assert!(route.is_valid(12));
    // demand above capacity
    assert!(!route.is_valid(11));
    // a missed due date
    let tight = loc(3, 10, 0, 1, 0, 9, 0);
    let late = Route { warehouse: depot(), customers: vec![c1, tight] };
    assert!(!late.is_valid(50));
}

#[test]
fn reversing_a_route_changes_cost_and_feasibility() {
    // a: tight due date; b: late ready time far from the depot path
    let a = loc(1, 10, 0, 1, 0, 11, 0);
    let b = loc(2, 5, 0, 1, 100, 1000, 0);
    let forward = Route { warehouse: depot(), customers: vec![a, b] };
    let reversed = Route { warehouse: depot(), customers: vec![b, a] };
    assert!(forward.is_valid(10));
    assert!(!reversed.is_valid(10));
    assert_eq!(forward.total_cost(), 105);
    assert_eq!(reversed.total_cost(), 115);
}

#[test]
fn try_insert_finds_best_position() {
    let c1 = loc(1, 5, 0, 5, 0, 1000, 0);
    let c2 = loc(2, 10, 0, 5, 0, 1000, 0);
    let route = Route { warehouse: depot(), customers: vec![c1] };
    // both positions cost 20; the earliest wins
    assert_eq!(route.try_insert(&c2, 20), Some((20, 0)));
}

#[test]
fn try_insert_none_when_capacity_blocks_every_position() {
    let c1 = loc(1, 5, 0, 5, 0, 1000, 0);
    let c2 = loc(2, 10, 0, 50, 0, 1000, 0);
    let route = Route { warehouse: depot(), customers: vec![c1] };
    assert_eq!(route.try_insert(&c2, 10), None);
}

#[test]
fn validate_accepts_a_feasible_instance() {
    let vrp = Vrp::new(depot(), vec![loc(1, 5, 0, 5, 0, 100, 0)], 2, 20);
    assert_eq!(vrp.validate(), Ok(()));
}

#[test]
fn validate_reports_demand_above_capacity() {
    let good = loc(1, 5, 0, 5, 0, 100, 0);
    let heavy = loc(2, 5, 0, 30, 0, 100, 0);
    let vrp = Vrp::new(depot(), vec![good, heavy], 2, 20);
    assert_eq!(vrp.validate(), Err(InstanceError::DemandExceedsCapacity { index: 1 }));
}

#[test]
fn validate_reports_unreachable_customer() {
    let good = loc(1, 5, 0, 5, 0, 100, 0);
    let far = loc(2, 200, 0, 5, 0, 50, 0);
    let vrp = Vrp::new(depot(), vec![good, far], 2, 20);
    assert_eq!(vrp.validate(), Err(InstanceError::CustomerUnreachable { index: 1 }));
}

#[test]
fn coord_bounds_widen_the_extremes() {
    let w = loc(0, 5, 5, 0, 0, 1000, 0);
    let vrp = Vrp::new(w, vec![loc(1, 1, 2, 0, 0, 100, 0), loc(2, 10, 3, 0, 0, 100, 0)], 1, 10);
    assert_eq!(vrp.get_coord_bounds(), (-9, 20, -8, 15));
}

#[test]
fn greedy_serves_nearest_feasible_in_order() {
    // concrete scenario: three customers on a line, one vehicle
    let c1 = loc(1, 5, 0, 5, 0, 100, 0);
    let c2 = loc(2, 10, 0, 5, 0, 100, 0);
    let c3 = loc(3, 20, 0, 5, 0, 100, 0);
    let vrp = Vrp::new(depot(), vec![c3, c1, c2], 1, 20);
    assert_eq!(vrp.validate(), Ok(()));
    let result = vrp.nearest_neighbour_heuristic();
    assert!(result.coverage_complete);
    assert_eq!(result.routes.len(), 1);
    let ids: Vec<u16> = result.routes[0].customers.iter().map(|c| c.id).collect();
    assert_eq!(ids, vec![1, 2, 3]);
    // outward legs 5 + 5 + 10 sum to 20; the return leg adds another 20
    assert_eq!(result.routes[0].total_distance(), 40);
    let outward = depot().cost_to(&c1, 0);
    let outward = c1.cost_to(&c2, outward);
    let outward = c2.cost_to(&c3, outward);
    assert_eq!(outward, 20);
    assert!(result.routes[0].is_valid(20));
}

#[test]
fn greedy_opens_new_routes_when_capacity_runs_out() {
    let c1 = loc(1, 5, 0, 10, 0, 100, 0);
    let c2 = loc(2, 10, 0, 10, 0, 100, 0);
    let vrp = Vrp::new(depot(), vec![c1, c2], 5, 10);
    let result = vrp.nearest_neighbour_heuristic();
    assert!(result.coverage_complete);
    assert_eq!(result.routes.len(), 2);
    assert_eq!(result.routes[0].customers, vec![c1]);
    assert_eq!(result.routes[1].customers, vec![c2]);
}

fn small_params(seed: u64) -> AcoParams {
    AcoParams { n_ants: 4, max_iter: 6, seed, ..AcoParams::default() }
}

#[test]
fn trivial_instance_yields_the_single_route() {
    // depot at the origin, one customer at (10, 0) with demand 5
    let c = loc(1, 10, 0, 5, 0, 1000, 0);
    let vrp = Vrp::new(depot(), vec![c], 5, 5);
    assert_eq!(vrp.validate(), Ok(()));

    let greedy = vrp.nearest_neighbour_heuristic();
    assert!(greedy.coverage_complete);
    assert_eq!(greedy.routes.len(), 1);
    assert_eq!(greedy.routes[0].customers, vec![c]);
    assert!(greedy.routes[0].is_valid(5));
    // the leg to the customer costs exactly the distance 10; the full tour
    // adds the matching return leg
    assert_eq!(depot().cost_to(&c, 0), 10);
    assert_eq!(greedy.routes[0].total_cost(), 20);

    let searched = vrp.aco_heuristic(&small_params(42));
    assert!(searched.coverage_complete);
    assert_eq!(searched.routes.len(), 1);
    assert_eq!(searched.routes[0].customers, vec![c]);
    assert!(searched.routes[0].is_valid(5));
    assert_eq!(searched.routes[0].total_cost(), 20);
    let history = searched.heuristic_cost_history.expect("the engine records a history");
    assert_eq!(history.len(), 6);
    assert!(history.iter().all(|&h| h == 20));
}

#[test]
fn search_engine_is_deterministic_for_a_seed() {
    let c1 = loc(1, 5, 0, 5, 0, 100, 0);
    let c2 = loc(2, 10, 3, 5, 0, 100, 0);
    let c3 = loc(3, 2, 9, 5, 0, 100, 0);
    let c4 = loc(4, 20, 1, 5, 10, 90, 2);
    let vrp = Vrp::new(depot(), vec![c1, c2, c3, c4], 3, 12);
    let first = vrp.aco_heuristic(&small_params(7));
    let second = vrp.aco_heuristic(&small_params(7));
    assert_eq!(first.routes, second.routes);
    assert_eq!(first.coverage_complete, second.coverage_complete);
    assert_eq!(first.heuristic_cost_history, second.heuristic_cost_history);
}

#[test]
fn full_exploitation_follows_the_cheapest_candidate() {
    // with q0 at one, every choice is the deliverable candidate of least
    // arrival cost, so the engine reproduces the greedy order
    let c1 = loc(1, 5, 0, 5, 0, 100, 0);
    let c2 = loc(2, 10, 0, 5, 0, 100, 0);
    let c3 = loc(3, 20, 0, 5, 0, 100, 0);
    let vrp = Vrp::new(depot(), vec![c3, c1, c2], 1, 20);
    let params = AcoParams { n_ants: 2, max_iter: 3, q0: 1_000_000, seed: 5, ..AcoParams::default() };
    let result = vrp.aco_heuristic(&params);
    assert!(result.coverage_complete);
    assert_eq!(result.routes.len(), 1);
    let ids: Vec<u16> = result.routes[0].customers.iter().map(|c| c.id).collect();
    assert_eq!(ids, vec![1, 2, 3]);
}

#[test]
fn fleet_limit_surfaces_incomplete_coverage() {
    let c1 = loc(1, 10, 0, 10, 0, 1000, 0);
    let c2 = loc(2, 20, 0, 10, 0, 1000, 0);
    // one vehicle of capacity 10 cannot cover both customers
    let vrp = Vrp::new(depot(), vec![c1, c2], 1, 10);
    let result = vrp.aco_heuristic(&small_params(3));
    assert!(!result.coverage_complete);
    assert!(result.routes.is_empty());
    let history = result.heuristic_cost_history.expect("the engine records a history");
    assert!(history.iter().all(|&h| h == u64::MAX));
}

#[test]
fn stagnation_resets_keep_the_best_solution() {
    // max_r of one forces a reset on every non-improving iteration; the
    // best-known solution must survive all of them
    let c1 = loc(1, 5, 0, 5, 0, 100, 0);
    let c2 = loc(2, 10, 0, 5, 0, 100, 0);
    let vrp = Vrp::new(depot(), vec![c1, c2], 2, 20);
    let params = AcoParams { n_ants: 3, max_iter: 8, max_r: 1, seed: 11, ..AcoParams::default() };
    let result = vrp.aco_heuristic(&params);
    assert!(result.coverage_complete);
    let history = result.heuristic_cost_history.expect("the engine records a history");
    assert_eq!(history.len(), 8);
    // the best-known cost never worsens across resets
    for w in history.windows(2) {
        assert!(w[1] <= w[0]);
    }
}

#[test]
fn pheromone_cycle_keeps_entries_in_range() {
    // two locations: one customer (index 0) and the depot (index 1)
    let mut tau = uniform_pheromones(2, 125);
    assert_eq!(tau, vec![125, 125, 125, 125]);
    evaporate(&mut tau, 100000);
    assert_eq!(tau, vec![112, 112, 112, 112]);
    // reinforce the route visiting customer 0: edges depot->0 and 0->depot
    let best: Vec<Vec<usize>> = vec![vec![0]];
    deposit_solution(&mut tau, 2, &best, 10);
    assert_eq!(tau, vec![112, 122, 122, 112]);
    deposit_solution(&mut tau, 2, &best, 1);
    assert_eq!(tau, vec![112, 123, 123, 112]);
    assert!(tau.iter().all(|&v| v >= 112));
}

#[test]
fn generator_replays_from_its_seed() {
    let mut a = Rng64::new(99);
    let mut b = Rng64::new(99);
    let first: Vec<u64> = (0..8).map(|_| a.next_u64()).collect();
    let second: Vec<u64> = (0..8).map(|_| b.next_u64()).collect();
    assert_eq!(first, second);
    let mut c = Rng64::new(100);
    let other: Vec<u64> = (0..8).map(|_| c.next_u64()).collect();
    assert_ne!(first, other);
}

#[test]
fn greedy_on_no_customers_yields_no_routes() {
    let vrp = Vrp::new(depot(), vec![], 3, 10);
    let result = vrp.nearest_neighbour_heuristic();
    assert!(result.routes.is_empty());
    assert!(result.coverage_complete);
}

#[test]
fn with_variants_evaluate_hypothetical_customers() {
    let c1 = loc(1, 5, 0, 5, 0, 100, 0);
    let c2 = loc(2, 10, 0, 7, 0, 100, 0);
    let route = Route { warehouse: depot(), customers: vec![c1] };
    let candidate = vec![c1, c2];
    assert_eq!(Route::total_demand_with(&candidate), 12);
    assert_eq!(route.total_cost_with(&candidate), 20);
    assert_eq!(route.total_cost_no_service_time_with(&candidate), 20);
    assert!(route.is_valid_with(&candidate, 12));
    assert!(!route.is_valid_with(&candidate, 11));
}

#[test]
fn solution_cost_sums_route_costs() {
    let c1 = loc(1, 5, 0, 5, 0, 100, 0);
    let c2 = loc(2, 0, 7, 5, 0, 100, 0);
    let r1 = Route { warehouse: depot(), customers: vec![c1] };
    let r2 = Route { warehouse: depot(), customers: vec![c2] };
    let mut vrp = Vrp::new(depot(), vec![c1, c2], 2, 10);
    vrp.routes = vec![r1, r2];
    assert_eq!(vrp.total_cost(), 10 + 14);
    assert_eq!(vrp.total_cost_no_service_time(), 24);
}
