use vstd::prelude::*;
use crate::calendar_model::{CalendarUnified, Exception, GeneralCalendar, Weekdays};

verus! {

/// A weekly calendar row of one partition; dates are day numbers.
#[derive(Clone, Debug)]
pub struct Calendar {
    pub onestop_feed_id: String,
    pub service_id: String,
    pub monday: bool,
    pub tuesday: bool,
    pub wednesday: bool,
    pub thursday: bool,
    pub friday: bool,
    pub saturday: bool,
    pub sunday: bool,
    pub gtfs_start_date: i64,
    pub gtfs_end_date: i64,
    pub chateau: String,
}

/// A date exception row: type 1 adds service on the date, type 2 removes it.
#[derive(Clone, Debug)]
pub struct CalendarDate {
    pub onestop_feed_id: String,
    pub attempt_id: String,
    pub service_id: String,
    pub gtfs_date: i64,
    pub exception_type: i16,
    pub chateau: String,
}

/// Building calendars failed: a date row carries an exception type other
/// than 1 or 2.
#[derive(Clone, Copy, Debug, PartialEq, Eq, Structural)]
pub enum CalendarError {
    UnknownExceptionType { exception_type: i16 },
}

pub open spec fn exception_of_code(code: i16) -> Option<Exception> {
    if code == 1 {
        Some(Exception::Added)
    } else if code == 2 {
        Some(Exception::Deleted)
    } else {
        None
    }
}

pub open spec fn general_of(c: Calendar) -> GeneralCalendar {
    GeneralCalendar {
        days: Weekdays {
            monday: c.monday,
            tuesday: c.tuesday,
            wednesday: c.wednesday,
            thursday: c.thursday,
            friday: c.friday,
            saturday: c.saturday,
            sunday: c.sunday,
        },
        start_date: c.gtfs_start_date,
        end_date: c.gtfs_end_date,
    }
}

/// The weekly part given by the last row for service `id`.
pub open spec fn last_general(cals: Seq<Calendar>, id: Seq<char>) -> Option<GeneralCalendar>
    decreases cals.len(),
{
    if cals.len() == 0 {
        None
    } else if cals.last().service_id@ == id {
        Some(general_of(cals.last()))
    } else {
        last_general(cals.drop_last(), id)
    }
}

/// The exception given by the last row for service `id` on `day`.
pub open spec fn last_exception(dates: Seq<CalendarDate>, id: Seq<char>, day: int) -> Option<Exception>
    decreases dates.len(),
{
    if dates.len() == 0 {
        None
    } else if dates.last().service_id@ == id && dates.last().gtfs_date == day {
        exception_of_code(dates.last().exception_type)
    } else {
        last_exception(dates.drop_last(), id, day)
    }
}

pub open spec fn all_codes_known(dates: Seq<CalendarDate>) -> bool {
    forall|k: int| 0 <= k < dates.len() ==> (#[trigger] exception_of_code(dates[k].exception_type)) is Some
}

/// Some row names service `id`.
pub open spec fn named(cals: Seq<Calendar>, dates: Seq<CalendarDate>, id: Seq<char>) -> bool {
    (exists|k: int| 0 <= k < cals.len() && (#[trigger] cals[k]).service_id@ == id)
    || (exists|k: int| 0 <= k < dates.len() && (#[trigger] dates[k]).service_id@ == id)
}

/// Distinct service ids.
pub open spec fn ids_unique(out: Seq<CalendarUnified>) -> bool {
    forall|a: int, b: int| 0 <= a < b < out.len() ==> (#[trigger] out[a]).id@ != (#[trigger] out[b]).id@
}

/// `out` holds one well-formed calendar per service named by the rows, whose
/// weekly part and exceptions are those of the last rows for it.
pub open spec fn calendars_from_rows(cals: Seq<Calendar>, dates: Seq<CalendarDate>, out: Seq<CalendarUnified>) -> bool {
    &&& ids_unique(out)
    &&& forall|a: int| 0 <= a < out.len() ==> {
        let c = #[trigger] out[a];
        &&& c.well_formed()
        &&& named(cals, dates, c.id@)
        &&& c.general_calendar == last_general(cals, c.id@)
        &&& forall|d: int| #[trigger] c.exception_on(d) == last_exception(dates, c.id@, d)
    }
    &&& forall|id: Seq<char>| #[trigger] named(cals, dates, id) ==> exists|a: int| 0 <= a < out.len() && (#[trigger] out[a]).id@ == id
}

proof fn lemma_last_general_named(cals: Seq<Calendar>, id: Seq<char>)
    requires
        last_general(cals, id) is Some,
    ensures
        exists|k: int| 0 <= k < cals.len() && (#[trigger] cals[k]).service_id@ == id,
    decreases cals.len(),
{
    if cals.last().service_id@ != id {
        lemma_last_general_named(cals.drop_last(), id);
        let k = choose|k: int| 0 <= k < cals.drop_last().len() && (#[trigger] cals.drop_last()[k]).service_id@ == id;
        assert(cals[k] == cals.drop_last()[k]);
    } else {
        assert(cals[cals.len() - 1].service_id@ == id);
    }
}

proof fn lemma_last_exception_named(dates: Seq<CalendarDate>, id: Seq<char>, day: int)
    requires
        last_exception(dates, id, day) is Some,
    ensures
        exists|k: int| 0 <= k < dates.len() && (#[trigger] dates[k]).service_id@ == id,
    decreases dates.len(),
{
    if !(dates.last().service_id@ == id && dates.last().gtfs_date == day) {
        lemma_last_exception_named(dates.drop_last(), id, day);
        let k = choose|k: int| 0 <= k < dates.drop_last().len() && (#[trigger] dates.drop_last()[k]).service_id@ == id;
        assert(dates[k] == dates.drop_last()[k]);
    } else {
        assert(dates[dates.len() - 1].service_id@ == id);
    }
}

fn position_of(out: &Vec<CalendarUnified>, id: &String) -> (r: Option<usize>)
    ensures
        match r {
            Some(i) => i < out@.len() && out@[i as int].id@ == id@,
            None => forall|a: int| 0 <= a < out@.len() ==> (#[trigger] out@[a]).id@ != id@,
        },
{
    let mut i: usize = 0;
    while i < out.len()
        invariant
            0 <= i <= out@.len(),
            forall|a: int| 0 <= a < i ==> (#[trigger] out@[a]).id@ != id@,
        decreases out@.len() - i,
    {
        if out[i].id == *id {
            return Some(i);
        }
        i = i + 1;
    }
    None
}

/// Builds the calendars of one partition from its weekly rows and its date
/// exception rows. Fails on an exception type other than 1 or 2.
pub fn make_calendar_structure_from_pg(calendars: &Vec<Calendar>, calendar_dates: &Vec<CalendarDate>)
    -> (r: Result<Vec<CalendarUnified>, CalendarError>)
    ensures
        r is Ok <==> all_codes_known(calendar_dates@),
        r matches Ok(out) ==> calendars_from_rows(calendars@, calendar_dates@, out@),
        r matches Err(CalendarError::UnknownExceptionType { exception_type }) ==> exception_of_code(exception_type) is None
            && exists|k: int| 0 <= k < calendar_dates@.len() && (#[trigger] calendar_dates@[k]).exception_type == exception_type,
{
    let mut out: Vec<CalendarUnified> = Vec::new();
    let mut i: usize = 0;
    let ghost no_dates: Seq<CalendarDate> = Seq::empty();
    while i < calendars.len()
        invariant
            0 <= i <= calendars@.len(),
            calendars_from_rows(calendars@.subrange(0, i as int), no_dates, out@),
            no_dates == Seq::<CalendarDate>::empty(),
        decreases calendars@.len() - i,
    {
        let row = &calendars[i];
        let general = GeneralCalendar {
            days: Weekdays {
                monday: row.monday,
                tuesday: row.tuesday,
                wednesday: row.wednesday,
                thursday: row.thursday,
                friday: row.friday,
                saturday: row.saturday,
                sunday: row.sunday,
            },
            start_date: row.gtfs_start_date,
            end_date: row.gtfs_end_date,
        };
        let ghost prev = calendars@.subrange(0, i as int);
        let ghost next = calendars@.subrange(0, i as int + 1);
        let ghost old_out = out@;
        assert(next.drop_last() =~= prev);
        assert(next.last() == *row);
        let entry = CalendarUnified { id: row.service_id.clone(), general_calendar: Some(general), exceptions: Vec::new() };
        let ghost pos: int;
        match position_of(&out, &row.service_id) {
            Some(p) => {
                out.remove(p);
                out.insert(p, entry);
                proof {
                    pos = p as int;
                    assert(out@ =~= old_out.update(pos, entry));
                }
            },
            None => {
                out.push(entry);
                proof {
                    pos = old_out.len() as int;
                }
            },
        }
        proof {
            assert(out@[pos] == entry);
            assert(out@.len() == old_out.len() || out@.len() == old_out.len() + 1);
            assert forall|a: int| 0 <= a < out@.len() && a != pos implies #[trigger] out@[a] == old_out[a] && old_out[a].id@ != row.service_id@ by {}
            assert(entry.exceptions@ =~= Seq::<(i64, Exception)>::empty());
            assert(entry.well_formed());
            assert forall|d: int| #[trigger] entry.exception_on(d) == last_exception(no_dates, entry.id@, d) by {}
            assert forall|id: Seq<char>| id != row.service_id@ implies last_general(next, id) == last_general(prev, id) by {}
            assert forall|id: Seq<char>| #[trigger] named(next, no_dates, id) <==> named(prev, no_dates, id) || id == row.service_id@ by {
                if named(next, no_dates, id) && id != row.service_id@ {
                    let k = choose|k: int| 0 <= k < next.len() && (#[trigger] next[k]).service_id@ == id;
                    assert(prev[k] == next[k]);
                }
                if named(prev, no_dates, id) {
                    let k = choose|k: int| 0 <= k < prev.len() && (#[trigger] prev[k]).service_id@ == id;
                    assert(prev[k] == next[k]);
                }
                if id == row.service_id@ {
                    assert(next[i as int].service_id@ == id);
                }
            }
            assert forall|id: Seq<char>| #[trigger] named(next, no_dates, id) implies exists|a: int| 0 <= a < out@.len() && (#[trigger] out@[a]).id@ == id by {
                if id == row.service_id@ {
                    assert(out@[pos].id@ == id);
                } else {
                    let b = choose|b: int| 0 <= b < old_out.len() && (#[trigger] old_out[b]).id@ == id;
                    assert(out@[b] == old_out[b]);
                }
            }
            assert(ids_unique(out@));
        }
        i = i + 1;
    }
    assert(calendars@.subrange(0, calendars@.len() as int) =~= calendars@);
    assert(calendar_dates@.subrange(0, 0) =~= no_dates);
    let mut i: usize = 0;
    while i < calendar_dates.len()
        invariant
            0 <= i <= calendar_dates@.len(),
            calendars_from_rows(calendars@, calendar_dates@.subrange(0, i as int), out@),
            all_codes_known(calendar_dates@.subrange(0, i as int)),
        decreases calendar_dates@.len() - i,
    {
        let row = &calendar_dates[i];
        let ghost prev = calendar_dates@.subrange(0, i as int);
        let ghost next = calendar_dates@.subrange(0, i as int + 1);
        let ghost old_out = out@;
        assert(next.drop_last() =~= prev);
        assert(next.last() == *row);
        let ex = if row.exception_type == 1 {
            Exception::Added
        } else if row.exception_type == 2 {
            Exception::Deleted
        } else {
            return Err(CalendarError::UnknownExceptionType { exception_type: row.exception_type });
        };
        let ghost pos: int;
        let ghost entry: CalendarUnified;
        match position_of(&out, &row.service_id) {
            Some(p) => {
                let mut e = out.remove(p);
                assert(e == old_out[p as int]);
                e.set_exception(row.gtfs_date, ex);
                proof {
                    entry = e;
                }
                out.insert(p, e);
                proof {
                    pos = p as int;
                    assert(out@ =~= old_out.update(pos, entry));
                }
            },
            None => {
                let mut exceptions: Vec<(i64, Exception)> = Vec::new();
                exceptions.push((row.gtfs_date, ex));
                let e = CalendarUnified { id: row.service_id.clone(), general_calendar: None, exceptions };
                proof {
                    entry = e;
                    pos = old_out.len() as int;
                    assert(!named(calendars@, prev, row.service_id@));
                    if last_general(calendars@, row.service_id@) is Some {
                        lemma_last_general_named(calendars@, row.service_id@);
                    }
                    assert forall|d: int| #[trigger] e.exception_on(d) == if d == row.gtfs_date { Some(ex) } else { None::<Exception> } by {
                        reveal_with_fuel(crate::calendar_model::exception_in, 2);
                        assert(e.exceptions@.len() == 1);
                        assert(e.exceptions@[0] == (row.gtfs_date, ex));
                        assert(e.exceptions@.drop_first() =~= Seq::<(i64, Exception)>::empty());
                    }
                    assert forall|d: int| last_exception(prev, row.service_id@, d) is None by {
                        if last_exception(prev, row.service_id@, d) is Some {
                            lemma_last_exception_named(prev, row.service_id@, d);
                        }
                    }
                }
                out.push(e);
            },
        }
        proof {
            assert(out@[pos] == entry);
            assert(all_codes_known(next)) by {
                assert forall|k: int| 0 <= k < next.len() implies (#[trigger] exception_of_code(next[k].exception_type)) is Some by {
                    if k < prev.len() {
                        assert(next[k] == prev[k]);
                        assert(exception_of_code(prev[k].exception_type) is Some);
                    }
                }
            }
            assert(out@.len() == old_out.len() || out@.len() == old_out.len() + 1);
            assert forall|a: int| 0 <= a < out@.len() && a != pos implies #[trigger] out@[a] == old_out[a] && old_out[a].id@ != row.service_id@ by {}
            assert forall|id: Seq<char>, d: int| !(id == row.service_id@ && d == row.gtfs_date)
                implies #[trigger] last_exception(next, id, d) == last_exception(prev, id, d) by {}
            assert forall|d: int| #[trigger] last_exception(next, row.service_id@, d) == if d == row.gtfs_date { Some(ex) } else { last_exception(prev, row.service_id@, d) } by {}
            assert forall|id: Seq<char>| #[trigger] named(calendars@, next, id) <==> named(calendars@, prev, id) || id == row.service_id@ by {
                if named(calendars@, next, id) && id != row.service_id@ {
                    if exists|k: int| 0 <= k < next.len() && (#[trigger] next[k]).service_id@ == id {
                        let k = choose|k: int| 0 <= k < next.len() && (#[trigger] next[k]).service_id@ == id;
                        assert(prev[k] == next[k]);
                    }
                }
                if named(calendars@, prev, id) {
                    if exists|k: int| 0 <= k < prev.len() && (#[trigger] prev[k]).service_id@ == id {
                        let k = choose|k: int| 0 <= k < prev.len() && (#[trigger] prev[k]).service_id@ == id;
                        assert(prev[k] == next[k]);
                    }
                }
                if id == row.service_id@ {
                    assert(next[i as int].service_id@ == id);
                }
            }
            assert forall|a: int| 0 <= a < out@.len() implies {
                let c = #[trigger] out@[a];
                &&& c.well_formed()
                &&& named(calendars@, next, c.id@)
                &&& c.general_calendar == last_general(calendars@, c.id@)
                &&& forall|d: int| #[trigger] c.exception_on(d) == last_exception(next, c.id@, d)
            } by {
                if a != pos {
                    assert(named(calendars@, prev, old_out[a].id@));
                }
            }
            assert forall|id: Seq<char>| #[trigger] named(calendars@, next, id) implies exists|a: int| 0 <= a < out@.len() && (#[trigger] out@[a]).id@ == id by {
                if id == row.service_id@ {
                    assert(out@[pos].id@ == id);
                } else {
                    let b = choose|b: int| 0 <= b < old_out.len() && (#[trigger] old_out[b]).id@ == id;
                    assert(out@[b] == old_out[b]);
                }
            }
            assert(ids_unique(out@));
        }
        i = i + 1;
    }
    assert(calendar_dates@.subrange(0, calendar_dates@.len() as int) =~= calendar_dates@);
    Ok(out)
}

} // verus!
