use vstd::prelude::*;
use crate::calendar_model::CalendarUnified;
use crate::resolver::{
    find_service_ranges, first_candidate_day, last_candidate_day, opt_view, served_days, Frequency,
    TripToFindScheduleFor, trip_extent, served_with, reference_start,
};

verus! {

/// One stop of an itinerary pattern, joined with the pattern's metadata.
/// Offsets are seconds since the start of the trip.
#[derive(Clone, Debug)]
pub struct ItineraryPatternRowNearbyLookup {
    pub chateau: String,
    pub itinerary_pattern_id: String,
    pub direction_pattern_id: String,
    pub stop_id: String,
    pub stop_sequence: u32,
    pub arrival_time_since_start: Option<u32>,
    pub departure_time_since_start: Option<u32>,
    pub interpolated_time_since_start: Option<u32>,
    pub trip_headsign: Option<String>,
    pub timezone: String,
    pub route_id: String,
}

/// A scheduled trip: its itinerary pattern, its service calendar and, for a
/// trip that repeats on a headway, its decoded descriptors.
#[derive(Clone, Debug)]
pub struct CompressedTrip {
    pub chateau: String,
    pub trip_id: String,
    pub service_id: String,
    pub itinerary_pattern_id: String,
    pub trip_short_name: Option<String>,
    pub frequencies: Option<Vec<Frequency>>,
}

/// A trip resolved to one concrete service day inside the query window,
/// with the itinerary row of the stop it is anchored at.
#[derive(Clone, Debug)]
pub struct ValidTripSet {
    pub chateau_id: String,
    pub trip_id: String,
    pub trip_short_name: Option<String>,
    pub frequencies: Option<Vec<Frequency>>,
    pub trip_service_date: i64,
    pub reference_start_of_service_date: i64,
    pub time_since_start: u32,
    pub arrival_time_since_start: u32,
    pub itinerary_pattern_id: String,
    pub direction_pattern_id: String,
    pub route_id: String,
    pub stop_id: String,
    pub trip_headsign: Option<String>,
}

/// The authoritative offset of a row: departure, else arrival, else
/// interpolated, else zero.
pub open spec fn offset_of(row: ItineraryPatternRowNearbyLookup) -> u32 {
    match row.departure_time_since_start {
        Some(d) => d,
        None => match row.arrival_time_since_start {
            Some(a) => a,
            None => match row.interpolated_time_since_start {
                Some(i) => i,
                None => 0,
            },
        },
    }
}

/// The arrival offset of a row: arrival, else departure, else
/// interpolated, else zero.
pub open spec fn arrival_offset_of(row: ItineraryPatternRowNearbyLookup) -> u32 {
    match row.arrival_time_since_start {
        Some(a) => a,
        None => match row.departure_time_since_start {
            Some(d) => d,
            None => match row.interpolated_time_since_start {
                Some(i) => i,
                None => 0,
            },
        },
    }
}

pub fn arrival_since_start(row: &ItineraryPatternRowNearbyLookup) -> (r: u32)
    ensures
        r == arrival_offset_of(*row),
{
    match row.arrival_time_since_start {
        Some(a) => a,
        None => match row.departure_time_since_start {
            Some(d) => d,
            None => match row.interpolated_time_since_start {
                Some(i) => i,
                None => 0,
            },
        },
    }
}

pub fn time_since_start(row: &ItineraryPatternRowNearbyLookup) -> (r: u32)
    ensures
        r == offset_of(*row),
{
    match row.departure_time_since_start {
        Some(d) => d,
        None => match row.arrival_time_since_start {
            Some(a) => a,
            None => match row.interpolated_time_since_start {
                Some(i) => i,
                None => 0,
            },
        },
    }
}

/// The first row of itinerary pattern `itin` in partition `chateau`.
pub open spec fn first_row_of(rows: Seq<ItineraryPatternRowNearbyLookup>, chateau: Seq<char>, itin: Seq<char>)
    -> Option<ItineraryPatternRowNearbyLookup>
    decreases rows.len(),
{
    if rows.len() == 0 {
        None
    } else if rows[0].chateau@ == chateau && rows[0].itinerary_pattern_id@ == itin {
        Some(rows[0])
    } else {
        first_row_of(rows.drop_first(), chateau, itin)
    }
}

/// The first calendar with service id `id`.
pub open spec fn calendar_for(cals: Seq<CalendarUnified>, id: Seq<char>) -> Option<CalendarUnified>
    decreases cals.len(),
{
    if cals.len() == 0 {
        None
    } else if cals[0].id@ == id {
        Some(cals[0])
    } else {
        calendar_for(cals.drop_first(), id)
    }
}

/// What the resolver is asked about a trip, given its itinerary row.
pub open spec fn asks_for(t: TripToFindScheduleFor, trip: CompressedTrip, row: ItineraryPatternRowNearbyLookup) -> bool {
    &&& t.timezone@ == row.timezone@
    &&& t.time_since_start_of_service_date == offset_of(row)
    &&& opt_view(t.frequency) == opt_view(trip.frequencies)
}

/// `v` is the entry for `trip`, anchored at `row`, on `date`.
pub open spec fn valid_trip_is(v: ValidTripSet, trip: CompressedTrip, row: ItineraryPatternRowNearbyLookup, date: (i64, i64)) -> bool {
    &&& v.chateau_id == trip.chateau
    &&& v.trip_id == trip.trip_id
    &&& v.trip_short_name == trip.trip_short_name
    &&& opt_view(v.frequencies) == opt_view(trip.frequencies)
    &&& v.trip_service_date == date.0
    &&& v.reference_start_of_service_date == date.1
    &&& v.time_since_start == offset_of(row)
    &&& v.arrival_time_since_start == arrival_offset_of(row)
    &&& v.itinerary_pattern_id == row.itinerary_pattern_id
    &&& v.direction_pattern_id == row.direction_pattern_id
    &&& v.route_id == row.route_id
    &&& v.stop_id == row.stop_id
    &&& v.trip_headsign == row.trip_headsign
}

/// The service days on which `trip` serves its stop inside the window; empty
/// when its itinerary or its calendar cannot be found.
pub open spec fn trip_dates(trip: CompressedTrip, rows: Seq<ItineraryPatternRowNearbyLookup>, cals: Seq<CalendarUnified>,
    query: int, seek_back: int, seek_forward: int) -> Seq<(i64, i64)> {
    match (first_row_of(rows, trip.chateau@, trip.itinerary_pattern_id@), calendar_for(cals, trip.service_id@)) {
        (Some(row), Some(cal)) => dates_for(cal, row, trip, query, seek_back, seek_forward),
        _ => Seq::empty(),
    }
}

/// The resolver's answer for a trip anchored at `row` under calendar `cal`.
pub open spec fn dates_for(cal: CalendarUnified, row: ItineraryPatternRowNearbyLookup, trip: CompressedTrip,
    query: int, seek_back: int, seek_forward: int) -> Seq<(i64, i64)> {
    let t = TripToFindScheduleFor {
        trip_id: trip.trip_id,
        chateau: trip.chateau,
        timezone: row.timezone,
        time_since_start_of_service_date: offset_of(row),
        frequency: trip.frequencies,
        itinerary_id: row.itinerary_pattern_id,
        direction_id: row.direction_pattern_id,
    };
    served_days(cal, t, query, seek_back, seek_forward,
        first_candidate_day(t, query, seek_back), last_candidate_day(query, seek_forward))
}

/// `(trip index, service day)` for each entry of the expansion, trips in
/// order, each trip's days in increasing order.
pub open spec fn expansion(trips: Seq<CompressedTrip>, rows: Seq<ItineraryPatternRowNearbyLookup>, cals: Seq<CalendarUnified>,
    query: int, seek_back: int, seek_forward: int) -> Seq<(int, (i64, i64))>
    decreases trips.len(),
{
    if trips.len() == 0 {
        Seq::empty()
    } else {
        let n = trips.len() - 1;
        let prev = expansion(trips.drop_last(), rows, cals, query, seek_back, seek_forward);
        prev + trip_dates(trips.last(), rows, cals, query, seek_back, seek_forward).map_values(|d: (i64, i64)| (n, d))
    }
}

/// The ids of the trips with at least one service day, in order.
pub open spec fn expanded_ids(trips: Seq<CompressedTrip>, rows: Seq<ItineraryPatternRowNearbyLookup>, cals: Seq<CalendarUnified>,
    query: int, seek_back: int, seek_forward: int) -> Seq<String>
    decreases trips.len(),
{
    if trips.len() == 0 {
        Seq::empty()
    } else {
        let prev = expanded_ids(trips.drop_last(), rows, cals, query, seek_back, seek_forward);
        if trip_dates(trips.last(), rows, cals, query, seek_back, seek_forward).len() > 0 {
            prev.push(trips.last().trip_id)
        } else {
            prev
        }
    }
}

fn first_row(rows: &Vec<ItineraryPatternRowNearbyLookup>, chateau: &String, itin: &String) -> (r: Option<usize>)
    ensures
        match r {
            Some(i) => i < rows@.len() && first_row_of(rows@, chateau@, itin@) == Some(rows@[i as int]),
            None => first_row_of(rows@, chateau@, itin@) is None,
        },
{
    let mut i: usize = 0;
    assert(rows@.skip(0) =~= rows@);
    while i < rows.len()
        invariant
            0 <= i <= rows@.len(),
            first_row_of(rows@, chateau@, itin@) == first_row_of(rows@.skip(i as int), chateau@, itin@),
        decreases rows@.len() - i,
    {
        assert(rows@.skip(i as int).drop_first() =~= rows@.skip(i as int + 1));
        if rows[i].chateau == *chateau && rows[i].itinerary_pattern_id == *itin {
            return Some(i);
        }
        i = i + 1;
    }
    None
}

fn calendar_index(cals: &Vec<CalendarUnified>, id: &String) -> (r: Option<usize>)
    ensures
        match r {
            Some(i) => i < cals@.len() && calendar_for(cals@, id@) == Some(cals@[i as int]),
            None => calendar_for(cals@, id@) is None,
        },
{
    let mut i: usize = 0;
    assert(cals@.skip(0) =~= cals@);
    while i < cals.len()
        invariant
            0 <= i <= cals@.len(),
            calendar_for(cals@, id@) == calendar_for(cals@.skip(i as int), id@),
        decreases cals@.len() - i,
    {
        assert(cals@.skip(i as int).drop_first() =~= cals@.skip(i as int + 1));
        if cals[i].id == *id {
            return Some(i);
        }
        i = i + 1;
    }
    None
}

/// A copy of a list of headway descriptors.
fn copy_frequencies(f: &Option<Vec<Frequency>>) -> (r: Option<Vec<Frequency>>)
    ensures
        opt_view(r) == opt_view(*f),
{
    match f {
        None => None,
        Some(v) => {
            let mut out: Vec<Frequency> = Vec::new();
            let mut i: usize = 0;
            while i < v.len()
                invariant
                    0 <= i <= v@.len(),
                    out@ == v@.subrange(0, i as int),
                decreases v@.len() - i,
            {
                out.push(v[i]);
                i = i + 1;
            }
            assert(out@ =~= v@);
            Some(out)
        },
    }
}


/// A copy of an optional string.
pub(crate) fn copy_opt_string(s: &Option<String>) -> (r: Option<String>)
    ensures
        r == *s,
{
    match s {
        Some(x) => Some(x.clone()),
        None => None,
    }
}

/// Two trips that agree on time zone, offset and headway descriptors are
/// served on the same days.
proof fn lemma_served_days_congruent(c: CalendarUnified, t1: TripToFindScheduleFor, t2: TripToFindScheduleFor,
    query: int, seek_back: int, seek_forward: int, first: int, last: int)
    requires
        t1.timezone@ == t2.timezone@,
        t1.time_since_start_of_service_date == t2.time_since_start_of_service_date,
        opt_view(t1.frequency) == opt_view(t2.frequency),
    ensures
        served_days(c, t1, query, seek_back, seek_forward, first, last)
            == served_days(c, t2, query, seek_back, seek_forward, first, last),
        trip_extent(t1) == trip_extent(t2),
    decreases last - first + 1,
{
    if last >= first {
        lemma_served_days_congruent(c, t1, t2, query, seek_back, seek_forward, first, last - 1);
        assert(served_with(c, t1, last, reference_start(t1.timezone@, last), query, seek_back, seek_forward)
            == served_with(c, t2, last, reference_start(t2.timezone@, last), query, seek_back, seek_forward));
    }
}

/// Resolves every trip of one partition against its calendar: one entry per
/// trip and service day on which it serves its anchor stop inside the
/// window, and the ids of the trips with at least one such day. A trip whose
/// itinerary or calendar is missing is left out.
pub fn expand_valid_trips(trips: &Vec<CompressedTrip>, itinerary_rows: &Vec<ItineraryPatternRowNearbyLookup>,
    calendars: &Vec<CalendarUnified>, query: i64, seek_back: u32, seek_forward: u32)
    -> (r: (Vec<ValidTripSet>, Vec<String>))
    ensures
        r.0@.len() == expansion(trips@, itinerary_rows@, calendars@, query as int, seek_back as int, seek_forward as int).len(),
        forall|i: int| 0 <= i < r.0@.len() ==> {
            let e = #[trigger] expansion(trips@, itinerary_rows@, calendars@, query as int, seek_back as int, seek_forward as int)[i];
            &&& 0 <= e.0 < trips@.len()
            &&& valid_trip_is(r.0@[i], trips@[e.0],
                first_row_of(itinerary_rows@, trips@[e.0].chateau@, trips@[e.0].itinerary_pattern_id@).unwrap(), e.1)
        },
        r.1@ == expanded_ids(trips@, itinerary_rows@, calendars@, query as int, seek_back as int, seek_forward as int),
{
    let ghost q = query as int;
    let ghost b = seek_back as int;
    let ghost f = seek_forward as int;
    let mut valid_trips: Vec<ValidTripSet> = Vec::new();
    let mut valid_trip_ids: Vec<String> = Vec::new();
    let mut ti: usize = 0;
    while ti < trips.len()
        invariant
            0 <= ti <= trips@.len(),
            valid_trips@.len() == expansion(trips@.subrange(0, ti as int), itinerary_rows@, calendars@, q, b, f).len(),
            forall|i: int| 0 <= i < valid_trips@.len() ==> {
                let e = #[trigger] expansion(trips@.subrange(0, ti as int), itinerary_rows@, calendars@, q, b, f)[i];
                &&& 0 <= e.0 < ti
                &&& valid_trip_is(valid_trips@[i], trips@[e.0],
                    first_row_of(itinerary_rows@, trips@[e.0].chateau@, trips@[e.0].itinerary_pattern_id@).unwrap(), e.1)
            },
            valid_trip_ids@ == expanded_ids(trips@.subrange(0, ti as int), itinerary_rows@, calendars@, q, b, f),
            q == query, b == seek_back, f == seek_forward,
        decreases trips@.len() - ti,
    {
        let trip = &trips[ti];
        let ghost prev_trips = trips@.subrange(0, ti as int);
        let ghost next_trips = trips@.subrange(0, ti as int + 1);
        assert(next_trips.drop_last() =~= prev_trips);
        assert(next_trips.last() == *trip);
        let ghost prev_len = valid_trips@.len();
        let ghost old_valid = valid_trips@;
        let ghost dates_spec = trip_dates(*trip, itinerary_rows@, calendars@, q, b, f);
        let dates: Vec<(i64, i64)> = match (first_row(itinerary_rows, &trip.chateau, &trip.itinerary_pattern_id),
            calendar_index(calendars, &trip.service_id)) {
            (Some(ri), Some(ci)) => {
                let row = &itinerary_rows[ri];
                let target = TripToFindScheduleFor {
                    trip_id: trip.trip_id.clone(),
                    chateau: trip.chateau.clone(),
                    timezone: row.timezone.clone(),
                    time_since_start_of_service_date: time_since_start(row),
                    frequency: copy_frequencies(&trip.frequencies),
                    itinerary_id: row.itinerary_pattern_id.clone(),
                    direction_id: row.direction_pattern_id.clone(),
                };
                let ds = find_service_ranges(&calendars[ci], &target, query, seek_back, seek_forward);
                proof {
                    let t2 = TripToFindScheduleFor {
                        trip_id: trip.trip_id,
                        chateau: trip.chateau,
                        timezone: row.timezone,
                        time_since_start_of_service_date: offset_of(*row),
                        frequency: trip.frequencies,
                        itinerary_id: row.itinerary_pattern_id,
                        direction_id: row.direction_pattern_id,
                    };
                    lemma_served_days_congruent(calendars@[ci as int], target, t2, q, b, f, 0, -1);
                    lemma_served_days_congruent(calendars@[ci as int], target, t2, q, b, f,
                        first_candidate_day(target, q, b), last_candidate_day(q, f));
                }
                ds
            },
            _ => Vec::new(),
        };
        assert(dates@ == dates_spec);
        let mut di: usize = 0;
        while di < dates.len()
            invariant
                0 <= ti < trips@.len(),
                *trip == trips@[ti as int],
                dates@ == dates_spec,
                dates_spec.len() > 0 ==> first_row_of(itinerary_rows@, trip.chateau@, trip.itinerary_pattern_id@) is Some,
                0 <= di <= dates@.len(),
                valid_trips@.len() == prev_len + di,
                forall|i: int| 0 <= i < prev_len ==> #[trigger] valid_trips@[i] == old_valid[i],
                forall|k: int| 0 <= k < di ==> valid_trip_is(#[trigger] valid_trips@[prev_len + k], *trip,
                    first_row_of(itinerary_rows@, trip.chateau@, trip.itinerary_pattern_id@).unwrap(), dates@[k]),
            decreases dates@.len() - di,
        {
            let ri = first_row(itinerary_rows, &trip.chateau, &trip.itinerary_pattern_id).unwrap();
            let row = &itinerary_rows[ri];
            let v = ValidTripSet {
                chateau_id: trip.chateau.clone(),
                trip_id: trip.trip_id.clone(),
                trip_short_name: copy_opt_string(&trip.trip_short_name),
                frequencies: copy_frequencies(&trip.frequencies),
                trip_service_date: dates[di].0,
                reference_start_of_service_date: dates[di].1,
                time_since_start: time_since_start(row),
                arrival_time_since_start: arrival_since_start(row),
                itinerary_pattern_id: row.itinerary_pattern_id.clone(),
                direction_pattern_id: row.direction_pattern_id.clone(),
                route_id: row.route_id.clone(),
                stop_id: row.stop_id.clone(),
                trip_headsign: copy_opt_string(&row.trip_headsign),
            };
            valid_trips.push(v);
            di = di + 1;
        }
        if dates.len() > 0 {
            valid_trip_ids.push(trip.trip_id.clone());
        }
        proof {
            let ex_prev = expansion(prev_trips, itinerary_rows@, calendars@, q, b, f);
            let ex_next = expansion(next_trips, itinerary_rows@, calendars@, q, b, f);
            assert(ex_next == ex_prev + dates_spec.map_values(|d: (i64, i64)| (ti as int, d)));
            assert forall|i: int| 0 <= i < valid_trips@.len() implies {
                let e = #[trigger] ex_next[i];
                &&& 0 <= e.0 < ti + 1
                &&& valid_trip_is(valid_trips@[i], trips@[e.0],
                    first_row_of(itinerary_rows@, trips@[e.0].chateau@, trips@[e.0].itinerary_pattern_id@).unwrap(), e.1)
            } by {
                if i < prev_len {
                    assert(ex_next[i] == ex_prev[i]);
                } else {
                    let k = i - prev_len;
                    assert(ex_next[i] == (ti as int, dates_spec[k]));
                    assert(valid_trips@[prev_len + k] == valid_trips@[i]);
                }
            }
        }
        ti = ti + 1;
    }
    assert(trips@.subrange(0, trips@.len() as int) =~= trips@);
    (valid_trips, valid_trip_ids)
}

} // verus!
