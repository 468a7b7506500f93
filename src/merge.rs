use vstd::prelude::*;
use vstd::seq_lib::{group_to_multiset_ensures, to_multiset_build, to_multiset_insert};
use vstd::multiset::{group_multiset_axioms, Multiset};
use crate::expand::ValidTripSet;
use crate::resolver::{first_departure, first_departure_in_window, window_low, window_high, lemma_first_departure_bounds};

use crate::expand::copy_opt_string;

verus! {

/// A live prediction for one trip at one stop, in epoch seconds.
#[derive(Clone, Debug)]
pub struct LiveStopTimeUpdate {
    pub trip_id: String,
    pub stop_id: String,
    pub arrival_time: Option<u64>,
    pub departure_time: Option<u64>,
}

/// One departure of a trip from its anchor stop: the scheduled times, and
/// the predicted ones where the partition's authority supplied them.
#[derive(Clone, Debug)]
pub struct DepartingTrip {
    pub chateau_id: String,
    pub trip_id: String,
    pub route_id: String,
    pub direction_id: String,
    pub headsign: Option<String>,
    pub stop_id: String,
    pub trip_short_name: Option<String>,
    pub gtfs_schedule_start_day: i64,
    pub is_frequency: bool,
    pub departure_schedule: Option<u64>,
    pub departure_realtime: Option<u64>,
    pub arrival_schedule: Option<u64>,
    pub arrival_realtime: Option<u64>,
}

/// `t` as epoch seconds, when it is one.
pub open spec fn as_epoch(t: int) -> Option<u64> {
    if 0 <= t <= u64::MAX {
        Some(t as u64)
    } else {
        None
    }
}

/// When the scheduled run of `v` that is shown starts: the reference start
/// of its service day, or for a headway trip the start of its earliest
/// repetition that reaches the stop inside `[lo, hi]`.
pub open spec fn run_start(v: ValidTripSet, lo: int, hi: int) -> Option<int> {
    match v.frequencies {
        None => Some(v.reference_start_of_service_date as int),
        Some(fs) => match first_departure(fs@, v.reference_start_of_service_date as int, v.time_since_start as int, lo, hi) {
            Some(t) => Some(t - v.time_since_start),
            None => None,
        },
    }
}

/// The scheduled departure of `v` at its stop.
pub open spec fn scheduled_departure(v: ValidTripSet, lo: int, hi: int) -> Option<u64> {
    match run_start(v, lo, hi) {
        Some(s) => as_epoch(s + v.time_since_start),
        None => None,
    }
}

/// The scheduled arrival of `v` at its stop.
pub open spec fn scheduled_arrival(v: ValidTripSet, lo: int, hi: int) -> Option<u64> {
    match run_start(v, lo, hi) {
        Some(s) => as_epoch(s + v.arrival_time_since_start),
        None => None,
    }
}

/// The first live update for a trip at a stop.
pub open spec fn update_for(updates: Seq<LiveStopTimeUpdate>, trip_id: Seq<char>, stop_id: Seq<char>) -> Option<LiveStopTimeUpdate>
    decreases updates.len(),
{
    if updates.len() == 0 {
        None
    } else if updates[0].trip_id@ == trip_id && updates[0].stop_id@ == stop_id {
        Some(updates[0])
    } else {
        update_for(updates.drop_first(), trip_id, stop_id)
    }
}

/// The live update for `v`: none when the partition's live data could not
/// be had, or holds nothing for the trip at its stop.
pub open spec fn live_update(live: Option<Seq<LiveStopTimeUpdate>>, v: ValidTripSet) -> Option<LiveStopTimeUpdate> {
    match live {
        None => None,
        Some(us) => update_for(us, v.trip_id@, v.stop_id@),
    }
}

/// The predicted departure: the update's departure, else its arrival.
pub open spec fn predicted_departure(live: Option<Seq<LiveStopTimeUpdate>>, v: ValidTripSet) -> Option<u64> {
    match live_update(live, v) {
        Some(u) => match u.departure_time {
            Some(d) => Some(d),
            None => u.arrival_time,
        },
        None => None,
    }
}

/// The predicted arrival: the update's arrival, else its departure.
pub open spec fn predicted_arrival(live: Option<Seq<LiveStopTimeUpdate>>, v: ValidTripSet) -> Option<u64> {
    match live_update(live, v) {
        Some(u) => match u.arrival_time {
            Some(a) => Some(a),
            None => u.departure_time,
        },
        None => None,
    }
}

pub open spec fn live_view(live: Option<Vec<LiveStopTimeUpdate>>) -> Option<Seq<LiveStopTimeUpdate>> {
    match live {
        Some(v) => Some(v@),
        None => None,
    }
}

/// The departure made of `v` with the partition's live data `live`, for
/// the seek window `[lo, hi]`.
pub open spec fn departure_of(v: ValidTripSet, live: Option<Seq<LiveStopTimeUpdate>>, lo: int, hi: int) -> DepartingTrip {
    DepartingTrip {
        chateau_id: v.chateau_id,
        trip_id: v.trip_id,
        route_id: v.route_id,
        direction_id: v.direction_pattern_id,
        headsign: v.trip_headsign,
        stop_id: v.stop_id,
        trip_short_name: v.trip_short_name,
        gtfs_schedule_start_day: v.trip_service_date,
        is_frequency: v.frequencies is Some,
        departure_schedule: scheduled_departure(v, lo, hi),
        departure_realtime: predicted_departure(live, v),
        arrival_schedule: scheduled_arrival(v, lo, hi),
        arrival_realtime: predicted_arrival(live, v),
    }
}

/// The time a departure is shown at: the prediction when there is one, else
/// the schedule; `u64::MAX` when it has neither.
pub open spec fn shown_time(d: DepartingTrip) -> u64 {
    match d.departure_realtime {
        Some(t) => t,
        None => match d.departure_schedule {
            Some(t) => t,
            None => u64::MAX,
        },
    }
}

pub fn departure_time(d: &DepartingTrip) -> (r: u64)
    ensures
        r == shown_time(*d),
{
    match d.departure_realtime {
        Some(t) => t,
        None => match d.departure_schedule {
            Some(t) => t,
            None => u64::MAX,
        },
    }
}

fn find_update(updates: &Vec<LiveStopTimeUpdate>, trip_id: &String, stop_id: &String) -> (r: Option<usize>)
    ensures
        match r {
            Some(i) => i < updates@.len() && update_for(updates@, trip_id@, stop_id@) == Some(updates@[i as int]),
            None => update_for(updates@, trip_id@, stop_id@) is None,
        },
{
    let mut i: usize = 0;
    assert(updates@.skip(0) =~= updates@);
    while i < updates.len()
        invariant
            0 <= i <= updates@.len(),
            update_for(updates@, trip_id@, stop_id@) == update_for(updates@.skip(i as int), trip_id@, stop_id@),
        decreases updates@.len() - i,
    {
        assert(updates@.skip(i as int).drop_first() =~= updates@.skip(i as int + 1));
        if updates[i].trip_id == *trip_id && updates[i].stop_id == *stop_id {
            return Some(i);
        }
        i = i + 1;
    }
    None
}

fn epoch(t: i128) -> (r: Option<u64>)
    ensures
        r == as_epoch(t as int),
{
    if 0 <= t && t <= u64::MAX as i128 { Some(t as u64) } else { None }
}

/// Joins one partition's valid trips with its live updates. `live` is `None`
/// when the partition's authority could not be resolved or reached: every
/// trip then keeps its scheduled times only. A headway trip is shown at its
/// earliest repetition inside the window `[query - seek_back, query + seek_forward]`.
pub fn merge_partition(valid: &Vec<ValidTripSet>, live: &Option<Vec<LiveStopTimeUpdate>>, query: i64, seek_back: u32,
    seek_forward: u32) -> (r: Vec<DepartingTrip>)
    ensures
        r@ == valid@.map_values(|v: ValidTripSet| departure_of(v, live_view(*live),
            window_low(query as int, seek_back as int), window_high(query as int, seek_forward as int))),
{
    let ghost lo = window_low(query as int, seek_back as int);
    let ghost hi = window_high(query as int, seek_forward as int);
    let mut out: Vec<DepartingTrip> = Vec::new();
    let mut i: usize = 0;
    while i < valid.len()
        invariant
            0 <= i <= valid@.len(),
            lo == window_low(query as int, seek_back as int),
            hi == window_high(query as int, seek_forward as int),
            out@.len() == i,
            forall|j: int| 0 <= j < i ==> #[trigger] out@[j] == departure_of(valid@[j], live_view(*live), lo, hi),
        decreases valid@.len() - i,
    {
        let v = &valid[i];
        let start: Option<i128> = match &v.frequencies {
            None => Some(v.reference_start_of_service_date as i128),
            Some(fs) => match first_departure_in_window(fs, v.reference_start_of_service_date, v.time_since_start,
                query, seek_back, seek_forward) {
                Some(t) => Some(t - v.time_since_start as i128),
                None => None,
            },
        };
        assert(start == match run_start(*v, lo, hi) { Some(s) => Some(s as i128), None => None::<i128> });
        let (departure_schedule, arrival_schedule) = match start {
            Some(s) => {
                proof {
                    // a headway start lies inside the window, so the sums below fit
                    if v.frequencies is Some {
                        let fs = v.frequencies.unwrap()@;
                        lemma_first_departure_bounds(fs, v.reference_start_of_service_date as int, v.time_since_start as int, lo, hi);
                    }
                }
                (epoch(s + v.time_since_start as i128), epoch(s + v.arrival_time_since_start as i128))
            },
            None => (None, None),
        };
        let update = match live {
            None => None,
            Some(us) => match find_update(us, &v.trip_id, &v.stop_id) {
                Some(k) => Some((us[k].departure_time, us[k].arrival_time)),
                None => None,
            },
        };
        let departure_realtime = match update {
            Some((d, a)) => match d { Some(x) => Some(x), None => a },
            None => None,
        };
        let arrival_realtime = match update {
            Some((d, a)) => match a { Some(x) => Some(x), None => d },
            None => None,
        };
        out.push(DepartingTrip {
            chateau_id: v.chateau_id.clone(),
            trip_id: v.trip_id.clone(),
            route_id: v.route_id.clone(),
            direction_id: v.direction_pattern_id.clone(),
            headsign: copy_opt_string(&v.trip_headsign),
            stop_id: v.stop_id.clone(),
            trip_short_name: copy_opt_string(&v.trip_short_name),
            gtfs_schedule_start_day: v.trip_service_date,
            is_frequency: v.frequencies.is_some(),
            departure_schedule,
            departure_realtime,
            arrival_schedule,
            arrival_realtime,
        });
        i = i + 1;
    }
    assert(out@ =~= valid@.map_values(|v: ValidTripSet| departure_of(v, live_view(*live), lo, hi)));
    out
}

pub open spec fn sorted_by_shown_time(s: Seq<DepartingTrip>) -> bool {
    forall|a: int, b: int| 0 <= a <= b < s.len() ==> shown_time(#[trigger] s[a]) <= shown_time(#[trigger] s[b])
}

/// Orders departures by the time they are shown at, earliest first.
pub fn sort_by_departure(trips: Vec<DepartingTrip>) -> (r: Vec<DepartingTrip>)
    ensures
        sorted_by_shown_time(r@),
        r@.to_multiset() == trips@.to_multiset(),
{
    let ghost input = trips@;
    let mut rest = trips;
    let mut out: Vec<DepartingTrip> = Vec::new();
    broadcast use group_to_multiset_ensures, to_multiset_insert, group_multiset_axioms;
    assert(out@.to_multiset() =~= Multiset::empty());
    assert(out@.to_multiset().add(rest@.to_multiset()) =~= input.to_multiset());
    while rest.len() > 0
        invariant
            sorted_by_shown_time(out@),
            out@.to_multiset().add(rest@.to_multiset()) == input.to_multiset(),
        decreases rest@.len(),
    {
        let ghost before_rest = rest@;
        let x = rest.pop().unwrap();
        assert(before_rest == rest@.push(x));
        let key = departure_time(&x);
        let mut p: usize = 0;
        while p < out.len() && departure_time(&out[p]) <= key
            invariant
                0 <= p <= out@.len(),
                forall|j: int| 0 <= j < p ==> shown_time(#[trigger] out@[j]) <= key,
            decreases out@.len() - p,
        {
            p = p + 1;
        }
        let ghost before = out@;
        out.insert(p, x);
        proof {
            assert(out@ == before.insert(p as int, x));
            assert forall|a: int, b: int| 0 <= a <= b < out@.len() implies shown_time(#[trigger] out@[a]) <= shown_time(#[trigger] out@[b]) by {
                if a < p && b < p {
                } else if a < p && b == p {
                } else if a < p {
                    assert(out@[b] == before[b - 1]);
                } else if a == p && b > p {
                    assert(out@[b] == before[b - 1]);
                    assert(shown_time(before[p as int]) > key);
                    assert(shown_time(before[p as int]) <= shown_time(before[b - 1]));
                } else if a > p {
                    assert(out@[a] == before[a - 1]);
                    assert(out@[b] == before[b - 1]);
                }
            }
            to_multiset_insert(before, p as int, x);
            to_multiset_build(rest@, x);
            assert(out@.to_multiset() == before.to_multiset().insert(x));
            assert(before_rest.to_multiset() == rest@.to_multiset().insert(x));
            assert(out@.to_multiset().add(rest@.to_multiset()) =~= before.to_multiset().add(before_rest.to_multiset()));
        }
    }
    assert(rest@ =~= Seq::<DepartingTrip>::empty());
    assert(rest@.to_multiset() =~= Multiset::empty());
    assert(out@.to_multiset().add(rest@.to_multiset()) =~= out@.to_multiset());
    out
}

} // verus!
