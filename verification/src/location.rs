//! Locations and the cost model shared by all heuristics: floor Euclidean
//! distance, path-dependent arrival cost, and feasibility filters over
//! candidate sets.

use vstd::prelude::*;

verus! {

/// Largest possible distance between two locations with `u16` coordinates:
/// the floor square root of `2 * 65535 * 65535`.
pub const MAX_LEG_DISTANCE: u64 = 92680;

/// One arrival step adds at most a leg distance, a wait bounded by the ready
/// time, and a service time to the cumulative cost.
pub const MAX_COST_STEP: u64 = 223750;

/// A point to visit: identifier, coordinates, demand, time window and
/// service duration. Immutable after creation; equality is by value.
#[derive(Clone, Copy, Debug, PartialEq, Eq, Structural)]
pub struct Location {
    pub id: u16,
    pub x: u16,
    pub y: u16,
    pub demand: u16,
    pub ready_time: u16,
    pub due_date: u16,
    pub service_time: u16,
}

pub open spec fn spec_sq(x: int) -> int {
    x * x
}

/// `r` is the floor of the square root of `n`.
pub open spec fn is_sqrt_floor(n: int, r: int) -> bool {
    0 <= r && spec_sq(r) <= n < spec_sq(r + 1)
}

/// The floor square root, as a total function on non-negative integers.
pub closed spec fn sqrt_floor(n: int) -> int {
    choose|r: int| is_sqrt_floor(n, r)
}

pub proof fn lemma_sqrt_floor_exists(n: int)
    requires
        n >= 0,
    ensures
        exists|r: int| is_sqrt_floor(n, r),
    decreases n,
{
    if n == 0 {
        assert(is_sqrt_floor(0, 0));
    } else {
        lemma_sqrt_floor_exists(n - 1);
        let r = choose|r: int| #[trigger] is_sqrt_floor(n - 1, r);
        if n < spec_sq(r + 1) {
            assert(is_sqrt_floor(n, r));
        } else {
            assert(spec_sq(r + 1) == n);
            assert(spec_sq(r + 2) > n) by (nonlinear_arith)
                requires
                    r >= 0,
                    spec_sq(r + 1) == n;
            assert(is_sqrt_floor(n, r + 1));
        }
    }
}

pub proof fn lemma_sqrt_floor_unique(n: int, r1: int, r2: int)
    by (nonlinear_arith)
    requires
        is_sqrt_floor(n, r1),
        is_sqrt_floor(n, r2),
    ensures
        r1 == r2,
{
}

/// The floor square root is exactly the `r` that `is_sqrt_floor` describes.
pub proof fn lemma_sqrt_floor_is(n: int, r: int)
    requires
        n >= 0,
        is_sqrt_floor(n, r),
    ensures
        sqrt_floor(n) == r,
{
    lemma_sqrt_floor_exists(n);
    let picked = sqrt_floor(n);
    assert(is_sqrt_floor(n, picked));
    lemma_sqrt_floor_unique(n, picked, r);
}

/// Floor integer square root by bisection.
fn isqrt(n: u64) -> (r: u64)
    ensures
        is_sqrt_floor(n as int, r as int),
        r as int == sqrt_floor(n as int),
{
    let mut lo: u64 = 0;
    let mut hi: u64 = if n < 4294967295 {
        n + 1
    } else {
        4294967296
    };
    proof {
        assert(spec_sq(hi as int) > n) by (nonlinear_arith)
            requires
                hi as int >= 1,
                hi == if n < 4294967295 { n + 1 } else { 4294967296 },
                n <= u64::MAX;
    }
    while lo + 1 < hi
        invariant
            lo < hi <= 4294967296,
            spec_sq(lo as int) <= n as int,
            (n as int) < spec_sq(hi as int),
        decreases hi - lo,
    {
        let mid: u64 = lo + (hi - lo) / 2;
        proof {
            assert((mid as int) * (mid as int) <= 4294967296 * 4294967296) by (nonlinear_arith)
                requires
                    mid <= 4294967296;
        }
        let sq: u128 = (mid as u128) * (mid as u128);
        if sq <= n as u128 {
            lo = mid;
        } else {
            hi = mid;
        }
    }
    proof {
        lemma_sqrt_floor_is(n as int, lo as int);
    }
    lo
}

impl Location {
    /// Floor Euclidean distance between the coordinates of two locations.
    pub open spec fn spec_distance(self, other: Location) -> int {
        sqrt_floor(spec_sq(other.x - self.x) + spec_sq(other.y - self.y))
    }

    /// Cumulative cost upon reaching `other` when departing from `self` at
    /// cumulative cost `cost_at_self`: travel, then wait for the window to
    /// open, then (optionally) serve.
    pub open spec fn spec_arrival_cost(
        self,
        other: Location,
        cost_at_self: int,
        with_service: bool,
    ) -> int {
        let reached = cost_at_self + self.spec_distance(other);
        let begun = if reached < other.ready_time {
            other.ready_time as int
        } else {
            reached
        };
        begun + (if with_service {
            other.service_time as int
        } else {
            0
        })
    }

    /// Distance from this location to another.
    pub fn distance_to(&self, other: &Location) -> (d: u64)
        ensures
            d == self.spec_distance(*other),
            d <= MAX_LEG_DISTANCE,
    {
        let dx: u64 = if self.x >= other.x {
            (self.x - other.x) as u64
        } else {
            (other.x - self.x) as u64
        };
        let dy: u64 = if self.y >= other.y {
            (self.y - other.y) as u64
        } else {
            (other.y - self.y) as u64
        };
        proof {
            assert(dx * dx <= 4294836225 && dy * dy <= 4294836225) by (nonlinear_arith)
                requires
                    dx <= 65535,
                    dy <= 65535;
        }
        let n: u64 = dx * dx + dy * dy;
        proof {
            assert(n as int == spec_sq(other.x - self.x) + spec_sq(other.y - self.y))
                by (nonlinear_arith)
                requires
                    dx == if self.x >= other.x { self.x - other.x } else { other.x - self.x },
                    dy == if self.y >= other.y { self.y - other.y } else { other.y - self.y },
                    n == dx * dx + dy * dy;
        }
        let r: u64 = isqrt(n);
        proof {
            if r > MAX_LEG_DISTANCE {
                assert(spec_sq(r as int) > 8589672450) by (nonlinear_arith)
                    requires
                        r >= 92681;
            }
        }
        r
    }

    /// Arrival cost with an explicit flag choosing whether the service time
    /// at `other` is included.
    pub fn arrival_cost(&self, other: &Location, current_cost: u64, with_service: bool) -> (c: u64)
        requires
            current_cost + MAX_COST_STEP <= u64::MAX,
        ensures
            c == self.spec_arrival_cost(*other, current_cost as int, with_service),
            current_cost <= c <= current_cost + MAX_COST_STEP,
    {
        let reached: u64 = current_cost + self.distance_to(other);
        let begun: u64 = if reached < other.ready_time as u64 {
            other.ready_time as u64
        } else {
            reached
        };
        if with_service {
            begun + other.service_time as u64
        } else {
            begun
        }
    }

    /// Cost to deliver to `other` from this location: travel, waiting and
    /// service time included.
    pub fn cost_to(&self, other: &Location, current_cost: u64) -> (c: u64)
        requires
            current_cost + MAX_COST_STEP <= u64::MAX,
        ensures
            c == self.spec_arrival_cost(*other, current_cost as int, true),
            current_cost <= c <= current_cost + MAX_COST_STEP,
    {
        self.arrival_cost(other, current_cost, true)
    }
}

/// The subsequence of `s` whose elements satisfy `pred`, in order.
pub open spec fn spec_filtered(s: Seq<Location>, pred: spec_fn(Location) -> bool) -> Seq<Location>
    decreases s.len(),
{
    if s.len() == 0 {
        Seq::empty()
    } else {
        let prefix = spec_filtered(s.drop_last(), pred);
        if pred(s.last()) {
            prefix.push(s.last())
        } else {
            prefix
        }
    }
}

pub proof fn lemma_filtered_push(s: Seq<Location>, pred: spec_fn(Location) -> bool, x: Location)
    ensures
        spec_filtered(s.push(x), pred) == if pred(x) {
            spec_filtered(s, pred).push(x)
        } else {
            spec_filtered(s, pred)
        },
{
    assert(s.push(x).drop_last() =~= s);
    assert(s.push(x).last() == x);
}

pub proof fn lemma_filtered_len(s: Seq<Location>, pred: spec_fn(Location) -> bool)
    ensures
        spec_filtered(s, pred).len() <= s.len(),
    decreases s.len(),
{
    if s.len() > 0 {
        lemma_filtered_len(s.drop_last(), pred);
    }
}

/// Every element of the filtered sequence satisfies the predicate and occurs
/// in the original sequence.
pub proof fn lemma_filtered_sound(s: Seq<Location>, pred: spec_fn(Location) -> bool)
    ensures
        forall|i: int|
            0 <= i < spec_filtered(s, pred).len() ==> pred(#[trigger] spec_filtered(s, pred)[i])
                && s.contains(spec_filtered(s, pred)[i]),
    decreases s.len(),
{
    if s.len() > 0 {
        lemma_filtered_sound(s.drop_last(), pred);
        let f = spec_filtered(s, pred);
        let fp = spec_filtered(s.drop_last(), pred);
        assert forall|i: int| 0 <= i < f.len() implies pred(f[i]) && s.contains(f[i]) by {
            if i < fp.len() {
                assert(pred(fp[i]) && s.drop_last().contains(fp[i]));
                let j = choose|j: int|
                    0 <= j < s.drop_last().len() && s.drop_last()[j] == fp[i];
                assert(s[j] == f[i]);
            } else {
                assert(f[i] == s.last());
                assert(s[s.len() - 1] == s.last());
            }
        }
    }
}

/// Every element of `s` that satisfies the predicate occurs in the filtered
/// sequence.
pub proof fn lemma_filtered_complete(
    s: Seq<Location>,
    pred: spec_fn(Location) -> bool,
    x: Location,
)
    requires
        s.contains(x),
        pred(x),
    ensures
        spec_filtered(s, pred).contains(x),
    decreases s.len(),
{
    if s.last() == x {
        assert(spec_filtered(s, pred).last() == x);
    } else {
        let i = choose|i: int| 0 <= i < s.len() && s[i] == x;
        assert(s.drop_last()[i] == x);
        lemma_filtered_complete(s.drop_last(), pred, x);
        let j = choose|j: int| 0 <= j < spec_filtered(s.drop_last(), pred).len()
            && spec_filtered(s.drop_last(), pred)[j] == x;
        assert(spec_filtered(s, pred)[j] == x);
    }
}

/// The candidate list with every copy of `c` removed.
pub open spec fn spec_remove_all(s: Seq<Location>, c: Location) -> Seq<Location> {
    spec_filtered(s, |l: Location| l != c)
}

pub proof fn lemma_remove_all_push(s: Seq<Location>, c: Location, x: Location)
    ensures
        spec_remove_all(s.push(x), c) == if x != c {
            spec_remove_all(s, c).push(x)
        } else {
            spec_remove_all(s, c)
        },
{
    assert(s.push(x).drop_last() =~= s);
    assert(s.push(x).last() == x);
}

/// Every element other than the removed value survives a removal.
pub proof fn lemma_remove_all_complete(s: Seq<Location>, c: Location, x: Location)
    requires
        s.contains(x),
        x != c,
    ensures
        spec_remove_all(s, c).contains(x),
    decreases s.len(),
{
    if s.last() == x {
        assert(spec_remove_all(s, c).last() == x);
    } else {
        let i = choose|i: int| 0 <= i < s.len() && s[i] == x;
        assert(s.drop_last()[i] == x);
        lemma_remove_all_complete(s.drop_last(), c, x);
        let fp = spec_remove_all(s.drop_last(), c);
        let j = choose|j: int| 0 <= j < fp.len() && fp[j] == x;
        assert(spec_remove_all(s, c)[j] == x);
    }
}

pub proof fn lemma_remove_all_len(s: Seq<Location>, c: Location)
    ensures
        spec_remove_all(s, c).len() <= s.len(),
    decreases s.len(),
{
    if s.len() > 0 {
        lemma_remove_all_len(s.drop_last(), c);
    }
}

/// Removing a present element makes the sequence strictly shorter.
pub proof fn lemma_remove_all_shorter(s: Seq<Location>, c: Location)
    requires
        s.contains(c),
    ensures
        spec_remove_all(s, c).len() < s.len(),
    decreases s.len(),
{
    lemma_remove_all_len(s.drop_last(), c);
    if s.last() != c {
        let i = choose|i: int| 0 <= i < s.len() && s[i] == c;
        assert(s.drop_last()[i] == c);
        lemma_remove_all_shorter(s.drop_last(), c);
    }
}

/// `c` can be served next from `from` at cumulative cost `current_cost`:
/// its due date is not exceeded upon arrival.
pub open spec fn spec_reachable_pred(from: Location, current_cost: int, c: Location) -> bool {
    current_cost + from.spec_distance(c) <= c.due_date
}

/// Reachable, and its demand fits in the remaining vehicle capacity.
pub open spec fn spec_deliverable_pred(
    from: Location,
    current_cost: int,
    remaining_capacity: int,
    c: Location,
) -> bool {
    spec_reachable_pred(from, current_cost, c) && c.demand <= remaining_capacity
}

pub open spec fn spec_reachable(from: Location, others: Seq<Location>, current_cost: int) -> Seq<
    Location,
> {
    spec_filtered(others, |c: Location| spec_reachable_pred(from, current_cost, c))
}

pub open spec fn spec_deliverable(
    from: Location,
    others: Seq<Location>,
    current_cost: int,
    remaining_capacity: int,
) -> Seq<Location> {
    spec_filtered(
        others,
        |c: Location| spec_deliverable_pred(from, current_cost, remaining_capacity, c),
    )
}

/// Every deliverable candidate is deliverable and occurs in the candidate
/// list.
pub proof fn lemma_deliverable_sound(
    from: Location,
    s: Seq<Location>,
    current_cost: int,
    remaining_capacity: int,
)
    ensures
        forall|i: int|
            0 <= i < spec_deliverable(from, s, current_cost, remaining_capacity).len()
                ==> spec_deliverable_pred(
                from,
                current_cost,
                remaining_capacity,
                #[trigger] spec_deliverable(from, s, current_cost, remaining_capacity)[i],
            ) && s.contains(spec_deliverable(from, s, current_cost, remaining_capacity)[i]),
{
    lemma_filtered_sound(
        s,
        |c: Location| spec_deliverable_pred(from, current_cost, remaining_capacity, c),
    );
}

/// Every deliverable element of the candidate list occurs among the
/// deliverable candidates.
pub proof fn lemma_deliverable_complete(
    from: Location,
    s: Seq<Location>,
    current_cost: int,
    remaining_capacity: int,
    x: Location,
)
    requires
        s.contains(x),
        spec_deliverable_pred(from, current_cost, remaining_capacity, x),
    ensures
        spec_deliverable(from, s, current_cost, remaining_capacity).contains(x),
{
    lemma_filtered_complete(
        s,
        |c: Location| spec_deliverable_pred(from, current_cost, remaining_capacity, c),
        x,
    );
}

pub proof fn lemma_deliverable_len(
    from: Location,
    s: Seq<Location>,
    current_cost: int,
    remaining_capacity: int,
)
    ensures
        spec_deliverable(from, s, current_cost, remaining_capacity).len() <= s.len(),
{
    lemma_filtered_len(
        s,
        |c: Location| spec_deliverable_pred(from, current_cost, remaining_capacity, c),
    );
}

/// Every element left after a removal occurs in the original list and
/// differs from the removed value.
pub proof fn lemma_remove_all_sound(s: Seq<Location>, c: Location)
    ensures
        forall|i: int|
            0 <= i < spec_remove_all(s, c).len() ==> (#[trigger] spec_remove_all(s, c)[i]) != c
                && s.contains(spec_remove_all(s, c)[i]),
    decreases s.len(),
{
    if s.len() > 0 {
        lemma_remove_all_sound(s.drop_last(), c);
        let f = spec_remove_all(s, c);
        let fp = spec_remove_all(s.drop_last(), c);
        assert forall|i: int| 0 <= i < f.len() implies f[i] != c && s.contains(f[i]) by {
            if i < fp.len() {
                assert(fp[i] != c && s.drop_last().contains(fp[i]));
                let j = choose|j: int|
                    0 <= j < s.drop_last().len() && s.drop_last()[j] == fp[i];
                assert(s[j] == f[i]);
            } else {
                assert(f[i] == s.last());
                assert(s[s.len() - 1] == s.last());
            }
        }
    }
}

/// Index of the candidate minimizing the arrival cost from `from`; ties are
/// broken in favour of the earliest candidate.
pub open spec fn spec_cheapest_idx(from: Location, s: Seq<Location>, current_cost: int) -> int
    decreases s.len(),
{
    if s.len() <= 1 {
        0
    } else {
        let j = spec_cheapest_idx(from, s.drop_last(), current_cost);
        if from.spec_arrival_cost(s.last(), current_cost, true) < from.spec_arrival_cost(
            s[j],
            current_cost,
            true,
        ) {
            s.len() - 1
        } else {
            j
        }
    }
}

/// The cheapest index is in range, minimizes the arrival cost, and is the
/// earliest index doing so.
pub proof fn lemma_cheapest_idx_min(from: Location, s: Seq<Location>, current_cost: int)
    requires
        s.len() > 0,
    ensures
        0 <= spec_cheapest_idx(from, s, current_cost) < s.len(),
        forall|i: int|
            0 <= i < s.len() ==> from.spec_arrival_cost(
                s[spec_cheapest_idx(from, s, current_cost)],
                current_cost,
                true,
            ) <= from.spec_arrival_cost(#[trigger] s[i], current_cost, true),
        forall|i: int|
            0 <= i < spec_cheapest_idx(from, s, current_cost) ==> from.spec_arrival_cost(
                s[spec_cheapest_idx(from, s, current_cost)],
                current_cost,
                true,
            ) < from.spec_arrival_cost(#[trigger] s[i], current_cost, true),
    decreases s.len(),
{
    if s.len() > 1 {
        lemma_cheapest_idx_min(from, s.drop_last(), current_cost);
        assert(forall|i: int| 0 <= i < s.len() - 1 ==> #[trigger] s[i] == s.drop_last()[i]);
    }
}

impl Location {
    /// All candidates whose delivery window is reachable from this location
    /// at the given cumulative cost.
    pub fn find_reachable(&self, others: Vec<Location>, current_cost: u64) -> (r: Vec<Location>)
        requires
            current_cost + MAX_COST_STEP <= u64::MAX,
        ensures
            r@ == spec_reachable(*self, others@, current_cost as int),
    {
        let mut out: Vec<Location> = Vec::new();
        let n: usize = others.len();
        for i in 0..n
            invariant
                n == others@.len(),
                current_cost + MAX_COST_STEP <= u64::MAX,
                out@ == spec_reachable(*self, others@.take(i as int), current_cost as int),
        {
            let c: Location = others[i];
            if current_cost + self.distance_to(&c) <= c.due_date as u64 {
                out.push(c);
            }
            proof {
                assert(others@.take(i + 1) =~= others@.take(i as int).push(c));
                lemma_filtered_push(
                    others@.take(i as int),
                    |l: Location| spec_reachable_pred(*self, current_cost as int, l),
                    c,
                );
            }
        }
        proof {
            assert(others@.take(n as int) =~= others@);
        }
        out
    }

    /// Reachable candidates whose demand also fits in the remaining vehicle
    /// capacity.
    pub fn find_deliverable(
        &self,
        others: Vec<Location>,
        current_cost: u64,
        remaining_capacity: u16,
    ) -> (r: Vec<Location>)
        requires
            current_cost + MAX_COST_STEP <= u64::MAX,
        ensures
            r@ == spec_deliverable(
                *self,
                others@,
                current_cost as int,
                remaining_capacity as int,
            ),
    {
        let mut out: Vec<Location> = Vec::new();
        let n: usize = others.len();
        for i in 0..n
            invariant
                n == others@.len(),
                current_cost + MAX_COST_STEP <= u64::MAX,
                out@ == spec_deliverable(
                    *self,
                    others@.take(i as int),
                    current_cost as int,
                    remaining_capacity as int,
                ),
        {
            let c: Location = others[i];
            if current_cost + self.distance_to(&c) <= c.due_date as u64 && c.demand
                <= remaining_capacity {
                out.push(c);
            }
            proof {
                assert(others@.take(i + 1) =~= others@.take(i as int).push(c));
                lemma_filtered_push(
                    others@.take(i as int),
                    |l: Location| spec_deliverable_pred(
                        *self,
                        current_cost as int,
                        remaining_capacity as int,
                        l,
                    ),
                    c,
                );
            }
        }
        proof {
            assert(others@.take(n as int) =~= others@);
        }
        out
    }

    /// The deliverable candidate that is cheapest to serve next, the
    /// cumulative cost of serving it, and the candidate list with it removed.
    /// Returns `None` exactly when no candidate is deliverable.
    pub fn find_cheapest_deliverable(
        &self,
        others: Vec<Location>,
        current_cost: u64,
        remaining_capacity: u16,
    ) -> (r: Option<(Location, u64, Vec<Location>)>)
        requires
            current_cost + MAX_COST_STEP <= u64::MAX,
        ensures
            ({
                let d = spec_deliverable(
                    *self,
                    others@,
                    current_cost as int,
                    remaining_capacity as int,
                );
                match r {
                    None => d.len() == 0,
                    Some((c, newcost, rest)) => d.len() > 0 && c == d[spec_cheapest_idx(
                        *self,
                        d,
                        current_cost as int,
                    )] && newcost == self.spec_arrival_cost(c, current_cost as int, true) && rest@
                        == spec_remove_all(others@, c),
                }
            }),
    {
        let candidates: Vec<Location> = clone_locations(&others);
        let deliverable: Vec<Location> = self.find_deliverable(
            candidates,
            current_cost,
            remaining_capacity,
        );
        let m: usize = deliverable.len();
        if m == 0 {
            return None;
        }
        let ghost d = deliverable@;
        let mut best_i: usize = 0;
        let mut best_cost: u64 = self.cost_to(&deliverable[0], current_cost);
        proof {
            assert(d.take(1) =~= seq![d[0]]);
        }
        for i in 1..m
            invariant
                m == d.len(),
                deliverable@ == d,
                current_cost + MAX_COST_STEP <= u64::MAX,
                0 <= best_i < i <= m,
                best_i as int == spec_cheapest_idx(*self, d.take(i as int), current_cost as int),
                best_cost == self.spec_arrival_cost(d[best_i as int], current_cost as int, true),
        {
            let c: u64 = self.cost_to(&deliverable[i], current_cost);
            proof {
                assert(d.take(i + 1).drop_last() =~= d.take(i as int));
                assert(d.take(i + 1).last() == d[i as int]);
                assert(forall|j: int| 0 <= j < i ==> d.take(i + 1)[j] == #[trigger] d.take(
                    i as int,
                )[j]);
            }
            if c < best_cost {
                best_i = i;
                best_cost = c;
            }
        }
        proof {
            assert(d.take(m as int) =~= d);
        }
        let chosen: Location = deliverable[best_i];
        let mut rest: Vec<Location> = Vec::new();
        let n: usize = others.len();
        for i in 0..n
            invariant
                n == others@.len(),
                rest@ == spec_remove_all(others@.take(i as int), chosen),
        {
            let l: Location = others[i];
            if l != chosen {
                rest.push(l);
            }
            proof {
                assert(others@.take(i + 1) =~= others@.take(i as int).push(l));
                lemma_remove_all_push(others@.take(i as int), chosen, l);
            }
        }
        proof {
            assert(others@.take(n as int) =~= others@);
        }
        Some((chosen, best_cost, rest))
    }
}

/// A fresh vector with the same locations.
pub fn clone_locations(v: &Vec<Location>) -> (r: Vec<Location>)
    ensures
        r@ == v@,
{
    let mut out: Vec<Location> = Vec::new();
    let n: usize = v.len();
    for i in 0..n
        invariant
            n == v@.len(),
            out@ == v@.take(i as int),
    {
        out.push(v[i]);
        proof {
            assert(v@.take(i + 1) =~= v@.take(i as int).push(v@[i as int]));
        }
    }
    proof {
        assert(v@.take(n as int) =~= v@);
    }
    out
}

/// The distance between two locations lies between 0 and `MAX_LEG_DISTANCE`.
pub proof fn lemma_distance_bounds(a: Location, b: Location)
    ensures
        0 <= a.spec_distance(b) <= MAX_LEG_DISTANCE,
{
    let n = spec_sq(b.x - a.x) + spec_sq(b.y - a.y);
    assert(0 <= n <= 8589672450) by (nonlinear_arith)
        requires
            -65535 <= b.x - a.x <= 65535,
            -65535 <= b.y - a.y <= 65535,
            n == spec_sq(b.x - a.x) + spec_sq(b.y - a.y);
    lemma_sqrt_floor_exists(n);
    let r = sqrt_floor(n);
    assert(is_sqrt_floor(n, r));
    if r > MAX_LEG_DISTANCE {
        assert(spec_sq(r) > 8589672450) by (nonlinear_arith)
            requires
                r >= 92681;
    }
}

/// One arrival step never lowers the cumulative cost and raises it by at
/// most `MAX_COST_STEP`.
pub proof fn lemma_arrival_cost_bounds(a: Location, b: Location, acc: int, with_service: bool)
    requires
        acc >= 0,
    ensures
        acc <= a.spec_arrival_cost(b, acc, with_service) <= acc + MAX_COST_STEP,
{
    lemma_distance_bounds(a, b);
}

/// Distance is symmetric in its two endpoints.
pub proof fn lemma_distance_symmetric(a: Location, b: Location)
    ensures
        a.spec_distance(b) == b.spec_distance(a),
{
    assert(spec_sq(b.x - a.x) == spec_sq(a.x - b.x) && spec_sq(b.y - a.y) == spec_sq(a.y - b.y))
        by (nonlinear_arith);
}

} // verus!

