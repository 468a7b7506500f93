use nearby_departures::anchors::{assign_anchor_stops, itinerary_ids_for, sort_stops_by_distance, stops_within, DirectionPatternRow, NearbyStop};
use nearby_departures::grouping::{group_departures, partition_departures};
use nearby_departures::calendar_model::{CalendarUnified, Exception, GeneralCalendar, Weekdays};
use nearby_departures::calendar_rows::{make_calendar_structure_from_pg, Calendar, CalendarDate, CalendarError};
use nearby_departures::expand::{expand_valid_trips, time_since_start, CompressedTrip, ItineraryPatternRowNearbyLookup};
use nearby_departures::ingest::{DownloadAttempt, MAPLE_INGESTION_VERSION};
use nearby_departures::merge::{departure_time, merge_partition, sort_by_departure, DepartingTrip, LiveStopTimeUpdate};
use nearby_departures::push::{authority_key, plan_push, AssignedNode, PushAction};
use nearby_departures::resolver::{find_service_ranges, frequency_hits_window, Frequency, TripToFindScheduleFor};
use nearby_departures::spatial::{departures_answer, distance_limits_for, INITIAL_SEARCH_RADIUS_METRES};

// 2023-11-14T22:13:20Z; the service day 19675 starts at 1_699_920_000.
const NOW: i64 = 1_700_000_000;
const TODAY: i64 = 19675;
const MIDNIGHT: i64 = 1_699_920_000;

fn every_day() -> Weekdays {
    Weekdays { monday: true, tuesday: true, wednesday: true, thursday: true, friday: true, saturday: true, sunday: true }
}

fn no_day() -> Weekdays {
    Weekdays { monday: false, tuesday: false, wednesday: false, thursday: false, friday: false, saturday: false, sunday: false }
}

fn calendar(days: Weekdays, start: i64, end: i64, exceptions: Vec<(i64, Exception)>) -> CalendarUnified {
    CalendarUnified {
        id: "svc".to_string(),
        general_calendar: Some(GeneralCalendar { days, start_date: start, end_date: end }),
        exceptions,
    }
}

fn trip_target(offset: u32, frequency: Option<Vec<Frequency>>) -> TripToFindScheduleFor {
    TripToFindScheduleFor {
        trip_id: "t1".to_string(),
        chateau: "metro".to_string(),
        timezone: "UTC".to_string(),
        time_since_start_of_service_date: offset,
        frequency,
        itinerary_id: "i1".to_string(),
        direction_id: "d1".to_string(),
    }
}

fn stop(id: &str, distance_mm: u64) -> NearbyStop {
    NearbyStop { chateau: "metro".to_string(), stop_id: id.to_string(), distance_mm }
}

fn dir_row(stop_id: &str, dir: &str, seq: u32) -> DirectionPatternRow {
    DirectionPatternRow {
        chateau: "metro".to_string(),
        stop_id: stop_id.to_string(),
        direction_pattern_id: dir.to_string(),
        stop_sequence: seq,
    }
}

fn itinerary_row(departure: Option<u32>, arrival: Option<u32>, interpolated: Option<u32>) -> ItineraryPatternRowNearbyLookup {
    ItineraryPatternRowNearbyLookup {
        chateau: "metro".to_string(),
        itinerary_pattern_id: "i1".to_string(),
        direction_pattern_id: "d1".to_string(),
        stop_id: "s1".to_string(),
        stop_sequence: 3,
        arrival_time_since_start: arrival,
        departure_time_since_start: departure,
        interpolated_time_since_start: interpolated,
        trip_headsign: Some("Downtown".to_string()),
        timezone: "UTC".to_string(),
        route_id: "r1".to_string(),
    }
}

fn compressed_trip() -> CompressedTrip {
    CompressedTrip {
        chateau: "metro".to_string(),
        trip_id: "t1".to_string(),
        service_id: "svc".to_string(),
        itinerary_pattern_id: "i1".to_string(),
        trip_short_name: Some("101".to_string()),
        frequencies: None,
    }
}

fn one_trip_departures(cal: CalendarUnified, live: Option<Vec<LiveStopTimeUpdate>>) -> Vec<DepartingTrip> {
    let rows = vec![itinerary_row(Some(81_000), None, None)];
    let trips = vec![compressed_trip()];
    let (valid, ids) = expand_valid_trips(&trips, &rows, &vec![cal], NOW, 5400, 43200);
    if valid.is_empty() {
        assert!(ids.is_empty());
    } else {
        assert_eq!(ids, vec!["t1".to_string()]);
    }
    sort_by_departure(merge_partition(&valid, &live, NOW, 5400, 43200))
}

#[test]
fn outside_date_range_is_inactive() {
    let c = calendar(every_day(), TODAY + 1, TODAY + 30, vec![(TODAY, Exception::Added)]);
    assert!(!c.is_active_on(TODAY));
    assert!(!c.is_active_on(TODAY + 31));
    assert!(c.is_active_on(TODAY + 1));
    assert!(find_service_ranges(&c, &trip_target(81_000, None), NOW, 5400, 43200).is_empty());
}

#[test]
fn exception_overrides_weekday() {
    let added = calendar(no_day(), TODAY - 10, TODAY + 10, vec![(TODAY, Exception::Added)]);
    assert!(added.is_active_on(TODAY));
    assert!(!added.is_active_on(TODAY + 1));
    let removed = calendar(every_day(), TODAY - 10, TODAY + 10, vec![(TODAY, Exception::Deleted)]);
    assert!(!removed.is_active_on(TODAY));
    assert!(removed.is_active_on(TODAY + 1));
}

#[test]
fn weekday_of_day_number() {
    // 1970-01-01 was a Thursday, 2023-11-14 a Tuesday.
    let thursdays = Weekdays { thursday: true, ..no_day() };
    let tuesdays = Weekdays { tuesday: true, ..no_day() };
    assert!(thursdays.runs_on_day(0));
    assert!(thursdays.runs_on_day(-7));
    assert!(!thursdays.runs_on_day(1));
    assert!(tuesdays.runs_on_day(TODAY));
}

#[test]
fn set_exception_replaces_earlier_one() {
    let mut c = calendar(every_day(), TODAY - 10, TODAY + 10, vec![]);
    c.set_exception(TODAY, Exception::Deleted);
    c.set_exception(TODAY, Exception::Added);
    assert_eq!(c.exceptions.len(), 1);
    assert_eq!(c.find_exception(TODAY), Some(Exception::Added));
    assert_eq!(c.find_exception(TODAY + 1), None);
}

#[test]
fn later_repetition_of_headway_trip_matches() {
    // repeats every 600 s from 06:00 to 23:00; the window is
    // [NOW - 5400, NOW + 43200] = [20:43:20, next day 10:13:20]
    let f = Frequency { start_time: 6 * 3600, end_time: 23 * 3600, headway_secs: 600, exact_times: false };
    assert!(frequency_hits_window(&f, MIDNIGHT, 0, NOW, 5400, 43200));
    // the first repetition alone would miss a narrow window at 22:00..22:05
    let narrow_query = MIDNIGHT + 22 * 3600;
    assert!(frequency_hits_window(&f, MIDNIGHT, 0, narrow_query, 0, 300));
    assert!(!frequency_hits_window(&f, MIDNIGHT, 0, MIDNIGHT + 22 * 3600 + 60, 0, 300));
    // past the end time nothing repeats
    assert!(!frequency_hits_window(&f, MIDNIGHT, 0, MIDNIGHT + 23 * 3600 + 1, 0, 3000));
    let c = calendar(every_day(), TODAY - 10, TODAY + 10, vec![]);
    let dates = find_service_ranges(&c, &trip_target(0, Some(vec![f])), narrow_query, 0, 300);
    assert_eq!(dates, vec![(TODAY, MIDNIGHT)]);
}

#[test]
fn zero_headway_runs_once() {
    let f = Frequency { start_time: 3600, end_time: 7200, headway_secs: 0, exact_times: true };
    assert!(frequency_hits_window(&f, MIDNIGHT, 0, MIDNIGHT + 3600, 0, 0));
    assert!(!frequency_hits_window(&f, MIDNIGHT, 0, MIDNIGHT + 3700, 0, 100));
}

#[test]
fn resolver_uses_local_midnight_of_zone() {
    // 19:00 local in New York on 2023-11-14 (UTC-5) is 00:00 UTC on 11-15.
    let c = calendar(every_day(), TODAY - 10, TODAY + 10, vec![]);
    let mut t = trip_target(19 * 3600, None);
    t.timezone = "America/New_York".to_string();
    let query = MIDNIGHT + 86400;
    let dates = find_service_ranges(&c, &t, query, 60, 60);
    assert_eq!(dates, vec![(TODAY, MIDNIGHT + 5 * 3600)]);
    t.timezone = "Not/AZone".to_string();
    assert!(find_service_ranges(&c, &t, query, 60, 60).is_empty());
}

#[test]
fn anchor_is_nearest_stop_of_each_direction() {
    let stops = vec![stop("a", 100), stop("b", 200), stop("c", 300)];
    let rows = vec![dir_row("c", "east", 9), dir_row("b", "east", 4), dir_row("c", "west", 1), dir_row("a", "north", 2)];
    let anchors = assign_anchor_stops(&stops, &rows);
    assert_eq!(anchors.len(), 3);
    let east = anchors.iter().find(|a| a.direction_pattern_id == "east").unwrap();
    assert_eq!((east.stop_id.as_str(), east.stop_sequence, east.distance_mm), ("b", 4, 200));
    let west = anchors.iter().find(|a| a.direction_pattern_id == "west").unwrap();
    assert_eq!((west.stop_id.as_str(), west.stop_sequence), ("c", 1));
    let north = anchors.iter().find(|a| a.direction_pattern_id == "north").unwrap();
    assert_eq!(north.stop_id, "a");
}

#[test]
fn anchors_are_per_partition() {
    let stops = vec![stop("a", 100), NearbyStop { chateau: "rail".to_string(), stop_id: "a".to_string(), distance_mm: 150 }];
    let mut other = dir_row("a", "east", 7);
    other.chateau = "rail".to_string();
    let rows = vec![dir_row("a", "east", 1), other];
    let anchors = assign_anchor_stops(&stops, &rows);
    assert_eq!(anchors.len(), 2);
}

#[test]
fn limits_tighten_with_result_count() {
    let l0 = distance_limits_for(0);
    assert_eq!((l0.bus_distance_limit, l0.rail_and_other_distance_limit), (3000, 3000));
    assert_eq!(INITIAL_SEARCH_RADIUS_METRES, 3000);
    let l100 = distance_limits_for(100);
    assert_eq!((l100.bus_distance_limit, l100.rail_and_other_distance_limit), (3000, 3000));
    let l101 = distance_limits_for(101);
    assert_eq!((l101.bus_distance_limit, l101.rail_and_other_distance_limit), (1500, 2000));
    let l801 = distance_limits_for(801);
    assert_eq!((l801.bus_distance_limit, l801.rail_and_other_distance_limit), (1200, 2000));
    let l1501 = distance_limits_for(1501);
    assert_eq!((l1501.bus_distance_limit, l1501.rail_and_other_distance_limit), (1200, 1500));
    let mut prev = distance_limits_for(0);
    for n in [50usize, 100, 101, 500, 800, 801, 1500, 1501, 5000] {
        let l = distance_limits_for(n);
        assert!(l.bus_distance_limit <= prev.bus_distance_limit);
        assert!(l.rail_and_other_distance_limit <= prev.rail_and_other_distance_limit);
        prev = l;
    }
}

#[test]
fn no_stops_gives_empty_result() {
    let anchors = assign_anchor_stops(&vec![], &vec![]);
    assert!(anchors.is_empty());
    let (valid, ids) = expand_valid_trips(&vec![], &vec![], &vec![], NOW, 5400, 43200);
    assert!(valid.is_empty() && ids.is_empty());
    assert!(merge_partition(&valid, &None, NOW, 5400, 43200).is_empty());
    assert!(group_departures(vec![]).is_empty());
    assert!(partition_departures(&valid, &None, NOW, 5400, 43200).is_empty());
}

#[test]
fn single_trip_with_realtime_prediction() {
    let cal = calendar(every_day(), TODAY - 100, TODAY + 100, vec![]);
    let live = vec![LiveStopTimeUpdate {
        trip_id: "t1".to_string(),
        stop_id: "s1".to_string(),
        arrival_time: None,
        departure_time: Some(NOW as u64 + 1060),
    }];
    let out = one_trip_departures(cal, Some(live));
    assert_eq!(out.len(), 1);
    assert_eq!(out[0].departure_schedule, Some(NOW as u64 + 1000));
    assert_eq!(out[0].departure_realtime, Some(NOW as u64 + 1060));
    assert_eq!(departure_time(&out[0]), NOW as u64 + 1060);
    assert_eq!(out[0].gtfs_schedule_start_day, TODAY);
    assert_eq!(out[0].route_id, "r1");
    assert_eq!(out[0].headsign, Some("Downtown".to_string()));
    assert!(!out[0].is_frequency);
}

#[test]
fn single_trip_without_prediction_keeps_schedule() {
    let cal = calendar(every_day(), TODAY - 100, TODAY + 100, vec![]);
    let other = vec![LiveStopTimeUpdate {
        trip_id: "t2".to_string(),
        stop_id: "s1".to_string(),
        arrival_time: Some(5),
        departure_time: Some(5),
    }];
    let out = one_trip_departures(cal, Some(other));
    assert_eq!(out.len(), 1);
    assert_eq!(out[0].departure_realtime, None);
    assert_eq!(departure_time(&out[0]), NOW as u64 + 1000);
}

#[test]
fn unreachable_authority_falls_back_to_schedule() {
    let cal = calendar(every_day(), TODAY - 100, TODAY + 100, vec![]);
    let out = one_trip_departures(cal, None);
    assert_eq!(out.len(), 1);
    assert_eq!(out[0].trip_id, "t1");
    assert_eq!(out[0].departure_realtime, None);
    assert_eq!(departure_time(&out[0]), NOW as u64 + 1000);
}

#[test]
fn removed_date_gives_no_valid_trip() {
    let tuesdays = Weekdays { tuesday: true, ..no_day() };
    let cal = calendar(tuesdays, TODAY - 100, TODAY + 100, vec![(TODAY, Exception::Deleted)]);
    let rows = vec![itinerary_row(Some(81_000), None, None)];
    let (valid, ids) = expand_valid_trips(&vec![compressed_trip()], &rows, &vec![cal], NOW, 5400, 43200);
    assert!(valid.is_empty());
    assert!(ids.is_empty());
}

#[test]
fn trip_without_calendar_or_itinerary_is_dropped() {
    let cal = calendar(every_day(), TODAY - 100, TODAY + 100, vec![]);
    let rows = vec![itinerary_row(Some(81_000), None, None)];
    let mut no_cal = compressed_trip();
    no_cal.service_id = "other".to_string();
    let mut no_itin = compressed_trip();
    no_itin.itinerary_pattern_id = "i9".to_string();
    let (valid, ids) = expand_valid_trips(&vec![no_cal, no_itin, compressed_trip()], &rows, &vec![cal], NOW, 5400, 43200);
    assert_eq!(valid.len(), 1);
    assert_eq!(ids, vec!["t1".to_string()]);
}

#[test]
fn offset_prefers_departure_then_arrival_then_interpolated() {
    assert_eq!(time_since_start(&itinerary_row(Some(10), Some(20), Some(30))), 10);
    assert_eq!(time_since_start(&itinerary_row(None, Some(20), Some(30))), 20);
    assert_eq!(time_since_start(&itinerary_row(None, None, Some(30))), 30);
    assert_eq!(time_since_start(&itinerary_row(None, None, None)), 0);
}

fn calendar_row(service: &str, start: i64, end: i64) -> Calendar {
    Calendar {
        onestop_feed_id: "f".to_string(),
        service_id: service.to_string(),
        monday: true,
        tuesday: false,
        wednesday: false,
        thursday: false,
        friday: false,
        saturday: false,
        sunday: true,
        gtfs_start_date: start,
        gtfs_end_date: end,
        chateau: "metro".to_string(),
    }
}

fn date_row(service: &str, date: i64, code: i16) -> CalendarDate {
    CalendarDate {
        onestop_feed_id: "f".to_string(),
        attempt_id: "a".to_string(),
        service_id: service.to_string(),
        gtfs_date: date,
        exception_type: code,
        chateau: "metro".to_string(),
    }
}

#[test]
fn calendars_built_from_rows() {
    let cals = vec![calendar_row("wk", 10, 20)];
    let dates = vec![date_row("wk", 12, 2), date_row("extra", 15, 1), date_row("wk", 13, 1)];
    let out = make_calendar_structure_from_pg(&cals, &dates).unwrap();
    assert_eq!(out.len(), 2);
    let wk = out.iter().find(|c| c.id == "wk").unwrap();
    let g = wk.general_calendar.unwrap();
    assert_eq!((g.start_date, g.end_date), (10, 20));
    assert!(g.days.monday && g.days.sunday && !g.days.tuesday);
    assert_eq!(wk.find_exception(12), Some(Exception::Deleted));
    assert_eq!(wk.find_exception(13), Some(Exception::Added));
    let extra = out.iter().find(|c| c.id == "extra").unwrap();
    assert!(extra.general_calendar.is_none());
    assert!(extra.is_active_on(15));
    assert!(!extra.is_active_on(16));
}

#[test]
fn unknown_exception_type_is_an_error() {
    let err = make_calendar_structure_from_pg(&vec![], &vec![date_row("wk", 12, 1), date_row("wk", 13, 3)]);
    assert_eq!(err.unwrap_err(), CalendarError::UnknownExceptionType { exception_type: 3 });
}

fn departing(trip: &str, schedule: Option<u64>, realtime: Option<u64>) -> DepartingTrip {
    DepartingTrip {
        chateau_id: "metro".to_string(),
        trip_id: trip.to_string(),
        route_id: "r1".to_string(),
        direction_id: "d1".to_string(),
        headsign: None,
        stop_id: "s1".to_string(),
        trip_short_name: None,
        gtfs_schedule_start_day: TODAY,
        is_frequency: false,
        departure_schedule: schedule,
        departure_realtime: realtime,
        arrival_schedule: schedule,
        arrival_realtime: realtime,
    }
}

#[test]
fn departures_sorted_by_shown_time() {
    let trips = vec![
        departing("late", Some(500), None),
        departing("none", None, None),
        departing("delayed", Some(100), Some(400)),
        departing("early", Some(200), None),
    ];
    let sorted = sort_by_departure(trips);
    let order: Vec<&str> = sorted.iter().map(|t| t.trip_id.as_str()).collect();
    assert_eq!(order, vec!["early", "delayed", "late", "none"]);
}

#[test]
fn push_plan_follows_lookup_and_fetch() {
    let feed = "f-uk".to_string();
    let node = Some(AssignedNode { chateau_id: "uk".to_string(), worker_id: "w1".to_string(), socket: "10.0.0.1:40427".to_string() });
    assert!(matches!(plan_push(&feed, &None, &Some(vec![1]), 7), PushAction::NoAssignedNode));
    assert!(matches!(plan_push(&feed, &node, &None, 7), PushAction::FetchFailed));
    match plan_push(&feed, &node, &Some(vec![1, 2, 3]), 7) {
        PushAction::Submit { socket, submission } => {
            assert_eq!(socket, "10.0.0.1:40427");
            assert_eq!(submission.chateau_id, "uk");
            assert_eq!(submission.feed_id, "f-uk");
            assert_eq!(submission.vehicles, Some(vec![1, 2, 3]));
            assert_eq!(submission.trips, Some(vec![1, 2, 3]));
            assert_eq!(submission.alerts, None);
            assert!(submission.has_vehicles && submission.has_trips && !submission.has_alerts);
            assert_eq!(submission.vehicles_response_code, Some(200));
            assert_eq!(submission.time_of_submission_ms, 7);
        }
        _ => panic!("expected a submission"),
    }
}

#[test]
fn download_attempt_holds_its_fields() {
    let d = DownloadAttempt {
        onestop_feed_id: "f".to_string(),
        file_hash: None,
        downloaded_unix_time_ms: 5,
        ingested: false,
        failed: true,
        mark_for_redo: false,
        url: "https://example.org/gtfs.zip".to_string(),
        ingestion_version: MAPLE_INGESTION_VERSION,
        http_response_code: Some("404".to_string()),
    };
    assert_eq!(d.clone().ingestion_version, 1);
}

fn departing_on(trip: &str, route: &str, direction: &str, headsign: Option<&str>, time: u64) -> DepartingTrip {
    let mut d = departing(trip, Some(time), None);
    d.route_id = route.to_string();
    d.direction_id = direction.to_string();
    d.headsign = headsign.map(|h| h.to_string());
    d
}

#[test]
fn departures_grouped_by_route_direction_headsign() {
    let sorted = sort_by_departure(vec![
        departing_on("t4", "r1", "d1", Some("North"), 400),
        departing_on("t1", "r1", "d1", Some("North"), 100),
        departing_on("t2", "r2", "d9", None, 200),
        departing_on("t3", "r1", "d2", Some("South"), 300),
        departing_on("t5", "r1", "d1", Some("Depot"), 500),
    ]);
    let groups = group_departures(sorted);
    assert_eq!(groups.len(), 2);
    let r1 = groups.iter().find(|g| g.route_id == "r1").unwrap();
    assert_eq!(r1.chateau_id, "metro");
    assert_eq!(r1.directions.len(), 3);
    let north = r1.directions.iter().find(|h| h.headsign.as_deref() == Some("North")).unwrap();
    assert_eq!(north.direction_id, "d1");
    let ids: Vec<&str> = north.trips.iter().map(|t| t.trip_id.as_str()).collect();
    assert_eq!(ids, vec!["t1", "t4"]);
    let r2 = groups.iter().find(|g| g.route_id == "r2").unwrap();
    assert_eq!(r2.directions.len(), 1);
    assert_eq!(r2.directions[0].headsign, None);
    assert_eq!(r2.directions[0].trips.len(), 1);
    assert!(group_departures(vec![]).is_empty());
}

#[test]
fn stops_sorted_nearest_first() {
    let sorted = sort_stops_by_distance(vec![stop("far", 2_500_000), stop("near", 10), stop("mid", 900_000), stop("near2", 10)]);
    let d: Vec<u64> = sorted.iter().map(|s| s.distance_mm).collect();
    assert_eq!(d, vec![10, 10, 900_000, 2_500_000]);
    assert_eq!(sorted[3].stop_id, "far");
}

#[test]
fn itinerary_ids_distinct_per_partition() {
    let mut other = itinerary_row(None, None, None);
    other.itinerary_pattern_id = "i2".to_string();
    let mut foreign = itinerary_row(None, None, None);
    foreign.chateau = "rail".to_string();
    foreign.itinerary_pattern_id = "i3".to_string();
    let rows = vec![itinerary_row(None, None, None), other, itinerary_row(Some(1), None, None), foreign];
    assert_eq!(itinerary_ids_for(&rows, &"metro".to_string()), vec!["i1".to_string(), "i2".to_string()]);
    assert_eq!(itinerary_ids_for(&rows, &"rail".to_string()), vec!["i3".to_string()]);
}

#[test]
fn registry_key_of_partition() {
    assert_eq!(authority_key("f-9q5-metro~losangeles"), "/authority_assignment/f-9q5-metro~losangeles");
}

#[test]
fn answer_reports_search_limits() {
    let a = departures_answer(900, 12, 30);
    assert_eq!(a.number_of_stops_searched_through, 900);
    assert_eq!((a.bus_limited_metres, a.rail_and_other_limited_metres), (1200, 2000));
    assert_eq!((a.debug_info.directions_count, a.debug_info.itineraries_count), (12, 30));
}

#[test]
fn stops_beyond_limit_are_left_out() {
    let stops = vec![stop("a", 1_999_999), stop("b", 2_000_000), stop("c", 2_000_001), stop("d", 10)];
    let kept = stops_within(&stops, 2000);
    let ids: Vec<&str> = kept.iter().map(|s| s.stop_id.as_str()).collect();
    assert_eq!(ids, vec!["a", "b", "d"]);
    assert!(stops_within(&stops, 0).is_empty());
}

#[test]
fn headway_trip_shown_at_first_repetition_in_window() {
    // repeats every 600 s from 08:00 to 23:00; the stop is 120 s into the trip
    let f = Frequency { start_time: 8 * 3600, end_time: 23 * 3600, headway_secs: 600, exact_times: false };
    let cal = calendar(every_day(), TODAY - 100, TODAY + 100, vec![]);
    let mut row = itinerary_row(Some(120), Some(60), None);
    row.stop_id = "s1".to_string();
    let mut trip = compressed_trip();
    trip.frequencies = Some(vec![f]);
    // window [12:00:10 - 0, 12:00:10 + 3600]
    let query = MIDNIGHT + 12 * 3600 + 10;
    let (valid, _) = expand_valid_trips(&vec![trip], &vec![row], &vec![cal], query, 0, 3600);
    assert_eq!(valid.len(), 1);
    let out = merge_partition(&valid, &None, query, 0, 3600);
    // repetition 12:00 reaches the stop at 12:02:00, inside the window
    assert_eq!(out[0].departure_schedule, Some((MIDNIGHT + 12 * 3600 + 120) as u64));
    assert_eq!(out[0].arrival_schedule, Some((MIDNIGHT + 12 * 3600 + 60) as u64));
    assert!(out[0].is_frequency);
}

#[test]
fn earliest_repetition_over_all_descriptors() {
    let a = Frequency { start_time: 8 * 3600, end_time: 20 * 3600, headway_secs: 1800, exact_times: false };
    let b = Frequency { start_time: 8 * 3600 + 600, end_time: 20 * 3600, headway_secs: 1800, exact_times: false };
    let fs = vec![a, b];
    // window [09:05, 10:05]: a runs at 09:30, b at 09:10
    let r = nearby_departures::resolver::first_departure_in_window(&fs, MIDNIGHT, 0, MIDNIGHT + 9 * 3600 + 300, 0, 3600);
    assert_eq!(r, Some((MIDNIGHT + 9 * 3600 + 600) as i128));
    let none = nearby_departures::resolver::first_departure_in_window(&fs, MIDNIGHT, 0, MIDNIGHT + 21 * 3600, 0, 60);
    assert_eq!(none, None);
}

#[test]
fn arrival_times_from_schedule_and_prediction() {
    let cal = calendar(every_day(), TODAY - 100, TODAY + 100, vec![]);
    let rows = vec![itinerary_row(Some(81_000), Some(80_940), None)];
    let (valid, _) = expand_valid_trips(&vec![compressed_trip()], &rows, &vec![cal], NOW, 5400, 43200);
    let live = vec![LiveStopTimeUpdate { trip_id: "t1".to_string(), stop_id: "s1".to_string(), arrival_time: Some(7), departure_time: None }];
    let out = merge_partition(&valid, &Some(live), NOW, 5400, 43200);
    assert_eq!(out[0].arrival_schedule, Some(NOW as u64 + 940));
    assert_eq!(out[0].departure_schedule, Some(NOW as u64 + 1000));
    assert_eq!(out[0].arrival_realtime, Some(7));
    assert_eq!(out[0].departure_realtime, Some(7));
}

#[test]
fn skipped_midnight_starts_day_after_the_gap() {
    // Santiago skips 00:00-01:00 on 2023-09-03 (day 19603); the day starts
    // at 01:00 local, UTC-3, that is 04:00 UTC.
    let day: i64 = 19603;
    let start = day * 86400 + 4 * 3600;
    let c = calendar(every_day(), day - 10, day + 10, vec![]);
    let mut t = trip_target(0, None);
    t.timezone = "America/Santiago".to_string();
    assert_eq!(find_service_ranges(&c, &t, start, 60, 60), vec![(day, start)]);
}

#[test]
fn partition_pipeline_groups_one_trip() {
    let cal = calendar(every_day(), TODAY - 100, TODAY + 100, vec![]);
    let rows = vec![itinerary_row(Some(81_000), None, None)];
    let (valid, _) = expand_valid_trips(&vec![compressed_trip()], &rows, &vec![cal], NOW, 5400, 43200);
    let groups = partition_departures(&valid, &None, NOW, 5400, 43200);
    assert_eq!(groups.len(), 1);
    assert_eq!(groups[0].route_id, "r1");
    assert_eq!(groups[0].directions.len(), 1);
    assert_eq!(groups[0].directions[0].trips[0].departure_schedule, Some(NOW as u64 + 1000));
}
