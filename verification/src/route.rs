//! A vehicle route: an ordered sequence of customer visits between an
//! implicit leading and trailing depot, with aggregate demand and cost,
//! validity against capacity and time windows, and insertion search.

use crate::location::{
    clone_locations, lemma_arrival_cost_bounds, Location, MAX_COST_STEP,
};
use vstd::prelude::*;

verus! {

/// Largest number of customer visits a single route may hold; keeps every
/// cumulative cost far below `u64::MAX`.
pub const MAX_ROUTE_STOPS: usize = 100000;

/// A route owned by one vehicle: the depot it starts and ends at, and the
/// customers visited in between, in order.
#[derive(Clone, Debug, PartialEq)]
pub struct Route {
    pub warehouse: Location,
    pub customers: Vec<Location>,
}

/// Sum of the demands of a sequence of customers.
pub open spec fn spec_total_demand(s: Seq<Location>) -> int
    decreases s.len(),
{
    if s.len() == 0 {
        0
    } else {
        spec_total_demand(s.drop_last()) + s.last().demand
    }
}

/// Cumulative cost after serving, from `prev` at cumulative cost `acc`,
/// every location of `rest` in order.
pub open spec fn spec_cost_from(
    prev: Location,
    rest: Seq<Location>,
    acc: int,
    with_service: bool,
) -> int
    decreases rest.len(),
{
    if rest.len() == 0 {
        acc
    } else {
        spec_cost_from(
            rest[0],
            rest.drop_first(),
            prev.spec_arrival_cost(rest[0], acc, with_service),
            with_service,
        )
    }
}

/// Serving `rest` in order from `prev` at cumulative cost `acc` meets every
/// due date along the way; the deadline is checked on arrival, before
/// waiting and service time are added.
pub open spec fn spec_feasible_from(prev: Location, rest: Seq<Location>, acc: int) -> bool
    decreases rest.len(),
{
    if rest.len() == 0 {
        true
    } else {
        let reached = acc + prev.spec_distance(rest[0]);
        reached <= rest[0].due_date && spec_feasible_from(
            rest[0],
            rest.drop_first(),
            prev.spec_arrival_cost(rest[0], acc, true),
        )
    }
}

/// The legs travelled after departing the depot: every customer in order,
/// then back to the depot.
pub open spec fn spec_tour_of(warehouse: Location, customers: Seq<Location>) -> Seq<Location> {
    customers + seq![warehouse]
}

/// Sum of the leg distances of the path from `prev` through `rest`.
pub open spec fn spec_path_distance(prev: Location, rest: Seq<Location>) -> int
    decreases rest.len(),
{
    if rest.len() == 0 {
        0
    } else {
        prev.spec_distance(rest[0]) + spec_path_distance(rest[0], rest.drop_first())
    }
}

pub proof fn lemma_path_distance_nonneg(prev: Location, rest: Seq<Location>)
    ensures
        0 <= spec_path_distance(prev, rest) <= rest.len() * crate::location::MAX_LEG_DISTANCE,
    decreases rest.len(),
{
    if rest.len() > 0 {
        crate::location::lemma_distance_bounds(prev, rest[0]);
        lemma_path_distance_nonneg(rest[0], rest.drop_first());
    }
}

/// Total cost of the route through `customers` anchored at `warehouse`.
pub open spec fn spec_route_cost_of(
    warehouse: Location,
    customers: Seq<Location>,
    with_service: bool,
) -> int {
    spec_cost_from(warehouse, spec_tour_of(warehouse, customers), 0, with_service)
}

/// The route through `customers` anchored at `warehouse` fits the vehicle
/// capacity and meets every due date, the depot's included.
pub open spec fn spec_route_valid_of(
    warehouse: Location,
    customers: Seq<Location>,
    capacity: int,
) -> bool {
    spec_total_demand(customers) <= capacity && spec_feasible_from(
        warehouse,
        spec_tour_of(warehouse, customers),
        0,
    )
}

/// `customers` with `c` inserted before position `i`.
pub open spec fn spec_inserted(customers: Seq<Location>, c: Location, i: int) -> Seq<Location> {
    customers.take(i) + seq![c] + customers.skip(i)
}

/// Best insertion of `c` over the positions `0 .. k` of `customers`: the
/// position whose route is valid and of least total cost, earliest position
/// on ties; `None` when no position in that range yields a valid route.
pub open spec fn spec_best_insertion(
    warehouse: Location,
    customers: Seq<Location>,
    c: Location,
    capacity: int,
    k: int,
) -> Option<(int, int)>
    decreases k,
{
    if k <= 0 {
        None
    } else {
        let prev = spec_best_insertion(warehouse, customers, c, capacity, k - 1);
        let pos = k - 1;
        if spec_route_valid_of(warehouse, spec_inserted(customers, c, pos), capacity) {
            let cost = spec_route_cost_of(warehouse, spec_inserted(customers, c, pos), true);
            match prev {
                None => Some((cost, pos)),
                Some((best_cost, best_pos)) => if cost < best_cost {
                    Some((cost, pos))
                } else {
                    prev
                },
            }
        } else {
            prev
        }
    }
}

/// The best insertion is an eligible position of least cost: it is valid,
/// it carries its own route cost, no eligible position in range is
/// cheaper, and every earlier eligible position is strictly dearer; when
/// it is `None`, no position in range is eligible.
pub proof fn lemma_best_insertion_min(
    warehouse: Location,
    customers: Seq<Location>,
    c: Location,
    capacity: int,
    k: int,
)
    ensures
        match spec_best_insertion(warehouse, customers, c, capacity, k) {
            None => forall|p: int|
                0 <= p < k ==> !spec_route_valid_of(
                    warehouse,
                    #[trigger] spec_inserted(customers, c, p),
                    capacity,
                ),
            Some((cost, pos)) => 0 <= pos < k && spec_route_valid_of(
                warehouse,
                spec_inserted(customers, c, pos),
                capacity,
            ) && cost == spec_route_cost_of(warehouse, spec_inserted(customers, c, pos), true) && (
            forall|p: int|
                0 <= p < k && spec_route_valid_of(
                    warehouse,
                    #[trigger] spec_inserted(customers, c, p),
                    capacity,
                ) ==> cost <= spec_route_cost_of(warehouse, spec_inserted(customers, c, p), true))
                && (forall|p: int|
                0 <= p < pos && spec_route_valid_of(
                    warehouse,
                    #[trigger] spec_inserted(customers, c, p),
                    capacity,
                ) ==> cost < spec_route_cost_of(warehouse, spec_inserted(customers, c, p), true)),
        },
    decreases k,
{
    if k > 0 {
        lemma_best_insertion_min(warehouse, customers, c, capacity, k - 1);
    }
}

/// Serving more locations never lowers the cumulative cost, and each one
/// raises it by at most `MAX_COST_STEP`.
pub proof fn lemma_cost_from_bounds(
    prev: Location,
    rest: Seq<Location>,
    acc: int,
    with_service: bool,
)
    requires
        acc >= 0,
    ensures
        acc <= spec_cost_from(prev, rest, acc, with_service) <= acc + rest.len() * MAX_COST_STEP,
    decreases rest.len(),
{
    if rest.len() > 0 {
        lemma_arrival_cost_bounds(prev, rest[0], acc, with_service);
        lemma_cost_from_bounds(
            rest[0],
            rest.drop_first(),
            prev.spec_arrival_cost(rest[0], acc, with_service),
            with_service,
        );
    }
}

/// Largest possible total cost of a route within `MAX_ROUTE_STOPS`:
/// `(MAX_ROUTE_STOPS + 1) * MAX_COST_STEP`.
pub const MAX_ROUTE_COST: u64 = 22375223750;

/// A route within the stop bound has a total cost between 0 and
/// `MAX_ROUTE_COST`.
pub proof fn lemma_route_cost_bounds(warehouse: Location, customers: Seq<Location>, with_service: bool)
    requires
        customers.len() <= MAX_ROUTE_STOPS,
    ensures
        0 <= spec_route_cost_of(warehouse, customers, with_service) <= MAX_ROUTE_COST,
{
    lemma_cost_from_bounds(warehouse, spec_tour_of(warehouse, customers), 0, with_service);
}

/// A valid route keeps its total customer demand within the vehicle
/// capacity.
pub proof fn lemma_valid_route_within_capacity(r: Route, capacity: int)
    requires
        r.spec_is_valid(capacity),
    ensures
        spec_total_demand(r.customers@) <= capacity,
{
}

/// Total cost of the tour `warehouse -> customers... -> warehouse`.
fn tour_cost(warehouse: &Location, customers: &Vec<Location>, with_service: bool) -> (c: u64)
    requires
        customers@.len() <= MAX_ROUTE_STOPS,
    ensures
        c == spec_route_cost_of(*warehouse, customers@, with_service),
{
    let ghost tour = spec_tour_of(*warehouse, customers@);
    let n: usize = customers.len();
    let mut cur: Location = *warehouse;
    let mut cost: u64 = 0;
    proof {
        assert(tour.skip(0) =~= tour);
    }
    for i in 0..n
        invariant
            n == customers@.len() <= MAX_ROUTE_STOPS,
            tour == spec_tour_of(*warehouse, customers@),
            cost <= i * MAX_COST_STEP,
            spec_cost_from(*warehouse, tour, 0, with_service) == spec_cost_from(
                cur,
                tour.skip(i as int),
                cost as int,
                with_service,
            ),
    {
        let next: Location = customers[i];
        proof {
            assert(tour.skip(i as int)[0] == next);
            assert(tour.skip(i as int).drop_first() =~= tour.skip(i + 1));
        }
        let stepped: u64 = cur.arrival_cost(&next, cost, with_service);
        cost = stepped;
        cur = next;
    }
    let returned: u64 = cur.arrival_cost(warehouse, cost, with_service);
    proof {
        let sk = tour.skip(n as int);
        assert(sk[0] == *warehouse);
        assert(sk.drop_first() =~= Seq::<Location>::empty());
        assert(spec_cost_from(
            *warehouse,
            Seq::<Location>::empty(),
            returned as int,
            with_service,
        ) == returned as int);
        assert(spec_cost_from(cur, sk, cost as int, with_service) == returned as int);
    }
    returned
}

/// Validity of the tour `warehouse -> customers... -> warehouse` against a
/// vehicle capacity.
fn tour_valid(warehouse: &Location, customers: &Vec<Location>, capacity: u16) -> (valid: bool)
    requires
        customers@.len() <= MAX_ROUTE_STOPS,
    ensures
        valid == spec_route_valid_of(*warehouse, customers@, capacity as int),
{
    let demand: u64 = total_demand_of(customers);
    if demand > capacity as u64 {
        return false;
    }
    let ghost tour = spec_tour_of(*warehouse, customers@);
    let n: usize = customers.len();
    let mut cur: Location = *warehouse;
    let mut cost: u64 = 0;
    proof {
        assert(tour.skip(0) =~= tour);
    }
    for i in 0..n
        invariant
            n == customers@.len() <= MAX_ROUTE_STOPS,
            tour == spec_tour_of(*warehouse, customers@),
            cost <= i * MAX_COST_STEP,
            spec_total_demand(customers@) <= capacity,
            spec_feasible_from(*warehouse, tour, 0) == spec_feasible_from(
                cur,
                tour.skip(i as int),
                cost as int,
            ),
    {
        let next: Location = customers[i];
        proof {
            assert(tour.skip(i as int)[0] == next);
            assert(tour.skip(i as int).drop_first() =~= tour.skip(i + 1));
        }
        let reached: u64 = cost + cur.distance_to(&next);
        if reached > next.due_date as u64 {
            return false;
        }
        let stepped: u64 = cur.arrival_cost(&next, cost, true);
        cost = stepped;
        cur = next;
    }
    let reached: u64 = cost + cur.distance_to(warehouse);
    let valid_back: bool = reached <= warehouse.due_date as u64;
    proof {
        let sk = tour.skip(n as int);
        assert(sk[0] == *warehouse);
        assert(sk.drop_first() =~= Seq::<Location>::empty());
        assert(spec_feasible_from(
            *warehouse,
            Seq::<Location>::empty(),
            cur.spec_arrival_cost(*warehouse, cost as int, true),
        ));
        assert(spec_feasible_from(cur, sk, cost as int) == valid_back);
    }
    valid_back
}

/// Sum of the demands of the given customers.
fn total_demand_of(customers: &Vec<Location>) -> (d: u64)
    requires
        customers@.len() <= MAX_ROUTE_STOPS,
    ensures
        d == spec_total_demand(customers@),
{
    let n: usize = customers.len();
    let mut sum: u64 = 0;
    for i in 0..n
        invariant
            n == customers@.len() <= MAX_ROUTE_STOPS,
            sum == spec_total_demand(customers@.take(i as int)),
            sum <= i * 65535,
        decreases n - i,
    {
        proof {
            assert(customers@.take(i + 1).drop_last() =~= customers@.take(i as int));
            assert(customers@.take(i + 1).last() == customers@[i as int]);
        }
        sum = sum + customers[i].demand as u64;
    }
    proof {
        assert(customers@.take(n as int) =~= customers@);
    }
    sum
}

impl Route {
    /// Total cost of this route: distance, waiting and service time.
    pub open spec fn spec_total_cost(self, with_service: bool) -> int {
        spec_route_cost_of(self.warehouse, self.customers@, with_service)
    }

    /// This route fits the vehicle capacity and meets every due date.
    pub open spec fn spec_is_valid(self, capacity: int) -> bool {
        spec_route_valid_of(self.warehouse, self.customers@, capacity)
    }

    /// The stop visited at `index`: the depot at both ends, customers in
    /// between.
    pub open spec fn spec_stop(self, index: int) -> Location {
        if index == 0 || index == self.customers@.len() + 1 {
            self.warehouse
        } else {
            self.customers@[index - 1]
        }
    }

    /// Number of stops: the customers plus the depot at both ends.
    pub fn len(&self) -> (n: usize)
        requires
            self.customers@.len() + 2 <= usize::MAX,
        ensures
            n == self.customers@.len() + 2,
    {
        self.customers.len() + 2
    }

    /// Whether the route visits no customer.
    pub fn is_empty(&self) -> (e: bool)
        ensures
            e == (self.customers@.len() == 0),
    {
        self.customers.is_empty()
    }

    /// The stop at `index` along the route, depot ends included.
    pub fn stop(&self, index: usize) -> (l: Location)
        requires
            index <= self.customers@.len() + 1 as int,
        ensures
            l == self.spec_stop(index as int),
    {
        if index == 0 {
            self.warehouse
        } else if index <= self.customers.len() {
            self.customers[index - 1]
        } else {
            self.warehouse
        }
    }

    /// Sum of the distances of all legs, depot to depot.
    pub fn total_distance(&self) -> (d: u64)
        requires
            self.customers@.len() <= MAX_ROUTE_STOPS,
        ensures
            d == spec_path_distance(
                self.warehouse,
                spec_tour_of(self.warehouse, self.customers@),
            ),
    {
        let ghost tour = spec_tour_of(self.warehouse, self.customers@);
        let n: usize = self.customers.len();
        let mut cur: Location = self.warehouse;
        let mut dist: u64 = 0;
        proof {
            assert(tour.skip(0) =~= tour);
        }
        for i in 0..n
            invariant
                n == self.customers@.len() <= MAX_ROUTE_STOPS,
                tour == spec_tour_of(self.warehouse, self.customers@),
                dist <= i * crate::location::MAX_LEG_DISTANCE,
                spec_path_distance(self.warehouse, tour) == dist + spec_path_distance(
                    cur,
                    tour.skip(i as int),
                ),
        {
            let next: Location = self.customers[i];
            proof {
                assert(tour.skip(i as int)[0] == next);
                assert(tour.skip(i as int).drop_first() =~= tour.skip(i + 1));
                lemma_path_distance_nonneg(next, tour.skip(i + 1));
            }
            dist = dist + cur.distance_to(&next);
            cur = next;
        }
        let back: u64 = cur.distance_to(&self.warehouse);
        proof {
            let sk = tour.skip(n as int);
            assert(sk[0] == self.warehouse);
            assert(sk.drop_first() =~= Seq::<Location>::empty());
            assert(spec_path_distance(self.warehouse, Seq::<Location>::empty()) == 0);
            assert(spec_path_distance(cur, sk) == cur.spec_distance(self.warehouse));
        }
        dist + back
    }

    /// Total cost of this route, with an explicit flag choosing whether
    /// service times are included.
    pub fn total_cost_flagged(&self, with_service: bool) -> (c: u64)
        requires
            self.customers@.len() <= MAX_ROUTE_STOPS,
        ensures
            c == self.spec_total_cost(with_service),
    {
        tour_cost(&self.warehouse, &self.customers, with_service)
    }

    /// Total cost of this route: distance, waiting and service time.
    pub fn total_cost(&self) -> (c: u64)
        requires
            self.customers@.len() <= MAX_ROUTE_STOPS,
        ensures
            c == self.spec_total_cost(true),
    {
        tour_cost(&self.warehouse, &self.customers, true)
    }

    /// Total cost of the route through the given customers, anchored at this
    /// route's depot.
    pub fn total_cost_with(&self, customers: &Vec<Location>) -> (c: u64)
        requires
            customers@.len() <= MAX_ROUTE_STOPS,
        ensures
            c == spec_route_cost_of(self.warehouse, customers@, true),
    {
        tour_cost(&self.warehouse, customers, true)
    }

    /// Total cost of this route without service times: distance and waiting
    /// only.
    pub fn total_cost_no_service_time(&self) -> (c: u64)
        requires
            self.customers@.len() <= MAX_ROUTE_STOPS,
        ensures
            c == self.spec_total_cost(false),
    {
        tour_cost(&self.warehouse, &self.customers, false)
    }

    /// Total cost without service times of the route through the given
    /// customers, anchored at this route's depot.
    pub fn total_cost_no_service_time_with(&self, customers: &Vec<Location>) -> (c: u64)
        requires
            customers@.len() <= MAX_ROUTE_STOPS,
        ensures
            c == spec_route_cost_of(self.warehouse, customers@, false),
    {
        tour_cost(&self.warehouse, customers, false)
    }

    /// Sum of the demands of this route's customers.
    pub fn total_demand(&self) -> (d: u64)
        requires
            self.customers@.len() <= MAX_ROUTE_STOPS,
        ensures
            d == spec_total_demand(self.customers@),
    {
        total_demand_of(&self.customers)
    }

    /// Sum of the demands of the given customers.
    pub fn total_demand_with(customers: &Vec<Location>) -> (d: u64)
        requires
            customers@.len() <= MAX_ROUTE_STOPS,
        ensures
            d == spec_total_demand(customers@),
    {
        total_demand_of(customers)
    }

    /// Whether this route fits the vehicle capacity and meets every due
    /// date, the final return to the depot included.
    pub fn is_valid(&self, capacity: u16) -> (valid: bool)
        requires
            self.customers@.len() <= MAX_ROUTE_STOPS,
        ensures
            valid == self.spec_is_valid(capacity as int),
    {
        tour_valid(&self.warehouse, &self.customers, capacity)
    }

    /// Whether the route through the given customers, anchored at this
    /// route's depot, is valid.
    pub fn is_valid_with(&self, customers: &Vec<Location>, capacity: u16) -> (valid: bool)
        requires
            customers@.len() <= MAX_ROUTE_STOPS,
        ensures
            valid == spec_route_valid_of(self.warehouse, customers@, capacity as int),
    {
        tour_valid(&self.warehouse, customers, capacity)
    }

    /// Evaluate every insertion position for `customer`; among the positions
    /// whose route stays valid, return the least total cost and the earliest
    /// position reaching it, or `None` when no position is eligible.
    pub fn try_insert(&self, customer: &Location, capacity: u16) -> (r: Option<(u64, u16)>)
        requires
            self.customers@.len() + 1 <= MAX_ROUTE_STOPS,
            self.customers@.len() < 65535,
        ensures
            ({
                let best = spec_best_insertion(
                    self.warehouse,
                    self.customers@,
                    *customer,
                    capacity as int,
                    self.customers@.len() + 1 as int,
                );
                match r {
                    None => best is None,
                    Some((cost, pos)) => best == Some((cost as int, pos as int)),
                }
            }),
    {
        let n: usize = self.customers.len();
        let mut found: bool = false;
        let mut best_cost: u64 = 0;
        let mut best_pos: u16 = 0;
        for i in 0..n + 1
            invariant
                n == self.customers@.len(),
                n + 1 <= MAX_ROUTE_STOPS,
                n < 65535,
                ({
                    let best = spec_best_insertion(
                        self.warehouse,
                        self.customers@,
                        *customer,
                        capacity as int,
                        i as int,
                    );
                    if found {
                        best == Some((best_cost as int, best_pos as int))
                    } else {
                        best is None
                    }
                }),
        {
            let mut cand: Vec<Location> = clone_locations(&self.customers);
            cand.insert(i, *customer);
            proof {
                assert(cand@ =~= spec_inserted(self.customers@, *customer, i as int));
            }
            if tour_valid(&self.warehouse, &cand, capacity) {
                let cost: u64 = tour_cost(&self.warehouse, &cand, true);
                if !found || cost < best_cost {
                    found = true;
                    best_cost = cost;
                    best_pos = i as u16;
                }
            }
        }
        if found {
            Some((best_cost, best_pos))
        } else {
            None
        }
    }
}

} // verus!
