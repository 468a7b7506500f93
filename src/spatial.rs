use vstd::prelude::*;

verus! {

/// The radius of the first spatial query, in metres.
pub const INITIAL_SEARCH_RADIUS_METRES: u32 = 3000;

/// Distance limits applied when filtering direction patterns, in metres.
#[derive(Clone, Copy, Debug, PartialEq, Eq, Structural)]
pub struct DistanceLimits {
    pub bus_distance_limit: u32,
    pub rail_and_other_distance_limit: u32,
}

/// The bus limit for a spatial query that returned `count` stops.
pub open spec fn bus_limit_for(count: int) -> int {
    if count > 800 {
        1200
    } else if count > 100 {
        1500
    } else {
        3000
    }
}

/// The rail-and-other limit for a spatial query that returned `count` stops.
pub open spec fn rail_limit_for(count: int) -> int {
    if count > 1500 {
        1500
    } else if count > 100 {
        2000
    } else {
        3000
    }
}

/// Tightens the limits as the number of stops found grows.
pub fn distance_limits_for(stop_count: usize) -> (r: DistanceLimits)
    ensures
        r.bus_distance_limit == bus_limit_for(stop_count as int),
        r.rail_and_other_distance_limit == rail_limit_for(stop_count as int),
{
    let mut bus_distance_limit: u32 = INITIAL_SEARCH_RADIUS_METRES;
    let mut rail_and_other_distance_limit: u32 = INITIAL_SEARCH_RADIUS_METRES;
    if stop_count > 100 {
        bus_distance_limit = 1500;
        rail_and_other_distance_limit = 2000;
    }
    if stop_count > 800 {
        bus_distance_limit = 1200;
    }
    if stop_count > 1500 {
        rail_and_other_distance_limit = 1500;
    }
    DistanceLimits { bus_distance_limit, rail_and_other_distance_limit }
}

/// More stops found never loosens a limit: both limits are non-increasing in
/// the result count, and never exceed the initial radius.
pub proof fn lemma_limits_monotonic(fewer: int, more: int)
    requires
        fewer <= more,
    ensures
        bus_limit_for(more) <= bus_limit_for(fewer) <= INITIAL_SEARCH_RADIUS_METRES,
        rail_limit_for(more) <= rail_limit_for(fewer) <= INITIAL_SEARCH_RADIUS_METRES,
{
}

/// Crossing a threshold strictly tightens the limit it governs.
pub proof fn lemma_thresholds_tighten(count: int)
    ensures
        count > 100 ==> bus_limit_for(count) < bus_limit_for(100) && rail_limit_for(count) < rail_limit_for(100),
        count > 800 ==> bus_limit_for(count) < bus_limit_for(800),
        count > 1500 ==> rail_limit_for(count) < rail_limit_for(1500),
{
}

/// Counts reported alongside a departures answer.
#[derive(Clone, Copy, Debug, PartialEq, Eq, Structural)]
pub struct DeparturesDebug {
    pub directions_count: usize,
    pub itineraries_count: usize,
}

/// What a departures answer reports about its search: how many stops the
/// spatial query found and the distance limits that count led to.
#[derive(Clone, Copy, Debug, PartialEq, Eq, Structural)]
pub struct DepartingTripsDataAnswer {
    pub number_of_stops_searched_through: usize,
    pub bus_limited_metres: u32,
    pub rail_and_other_limited_metres: u32,
    pub debug_info: DeparturesDebug,
}

pub fn departures_answer(stop_count: usize, directions_count: usize, itineraries_count: usize) -> (r: DepartingTripsDataAnswer)
    ensures
        r.number_of_stops_searched_through == stop_count,
        r.bus_limited_metres == bus_limit_for(stop_count as int),
        r.rail_and_other_limited_metres == rail_limit_for(stop_count as int),
        r.debug_info == (DeparturesDebug { directions_count, itineraries_count }),
{
    let limits = distance_limits_for(stop_count);
    DepartingTripsDataAnswer {
        number_of_stops_searched_through: stop_count,
        bus_limited_metres: limits.bus_distance_limit,
        rail_and_other_limited_metres: limits.rail_and_other_distance_limit,
        debug_info: DeparturesDebug { directions_count, itineraries_count },
    }
}

} // verus!
