use vstd::prelude::*;

verus! {

/// Seconds in one civil day.
pub const SECONDS_PER_DAY: i64 = 86400;

/// The weekday of a day number (days since 1970-01-01), Monday being 0.
/// 1970-01-01 was a Thursday.
pub open spec fn weekday_of(day: int) -> int {
    (day + 3) % 7
}

/// Which weekdays a weekly calendar runs on.
#[derive(Clone, Copy, Debug, PartialEq, Eq, Structural)]
pub struct Weekdays {
    pub monday: bool,
    pub tuesday: bool,
    pub wednesday: bool,
    pub thursday: bool,
    pub friday: bool,
    pub saturday: bool,
    pub sunday: bool,
}

impl Weekdays {
    /// Whether the weekday with index `w` (Monday being 0) is set.
    pub open spec fn runs_on(&self, w: int) -> bool {
        if w == 0 {
            self.monday
        } else if w == 1 {
            self.tuesday
        } else if w == 2 {
            self.wednesday
        } else if w == 3 {
            self.thursday
        } else if w == 4 {
            self.friday
        } else if w == 5 {
            self.saturday
        } else {
            self.sunday
        }
    }

    pub fn runs_on_day(&self, day: i64) -> (r: bool)
        ensures
            r == self.runs_on(weekday_of(day as int)),
    {
        let w: i64 = (day % 7 + 7 + 3) % 7;
        assert(w == weekday_of(day as int)) by {
            assert((day as int % 7 + 7 + 3) % 7 == (day as int + 3) % 7) by (nonlinear_arith);
        }
        if w == 0 {
            self.monday
        } else if w == 1 {
            self.tuesday
        } else if w == 2 {
            self.wednesday
        } else if w == 3 {
            self.thursday
        } else if w == 4 {
            self.friday
        } else if w == 5 {
            self.saturday
        } else {
            self.sunday
        }
    }
}


/// A date exception of the sparse overlay.
#[derive(Clone, Copy, Debug, PartialEq, Eq, Structural)]
pub enum Exception {
    Added,
    Deleted,
}

/// The weekly part of a calendar: its weekdays and its inclusive date range.
#[derive(Clone, Copy, Debug, PartialEq, Eq, Structural)]
pub struct GeneralCalendar {
    pub days: Weekdays,
    pub start_date: i64,
    pub end_date: i64,
}

/// A service calendar: an optional weekly pattern plus date exceptions.
/// Dates are day numbers since 1970-01-01.
#[derive(Clone, Debug)]
pub struct CalendarUnified {
    pub id: String,
    pub general_calendar: Option<GeneralCalendar>,
    pub exceptions: Vec<(i64, Exception)>,
}

/// The first exception recorded for `day`, if any.
pub open spec fn exception_in(exs: Seq<(i64, Exception)>, day: int) -> Option<Exception>
    decreases exs.len(),
{
    if exs.len() == 0 {
        None
    } else if exs[0].0 == day {
        Some(exs[0].1)
    } else {
        exception_in(exs.drop_first(), day)
    }
}

/// Dates of an exception list are pairwise distinct.
pub open spec fn exception_dates_unique(exs: Seq<(i64, Exception)>) -> bool {
    forall|i: int, j: int| 0 <= i < j < exs.len() ==> exs[i].0 != exs[j].0
}

impl CalendarUnified {
    pub open spec fn well_formed(&self) -> bool {
        exception_dates_unique(self.exceptions@)
    }

    /// The calendar's own exception for `day`.
    pub open spec fn exception_on(&self, day: int) -> Option<Exception> {
        exception_in(self.exceptions@, day)
    }

    /// Whether `day` lies in the date range of the weekly part.
    pub open spec fn in_range(&self, day: int) -> bool {
        match self.general_calendar {
            Some(g) => g.start_date <= day <= g.end_date,
            None => true,
        }
    }

    /// Whether the weekly part alone runs on `day`.
    pub open spec fn weekly_active(&self, day: int) -> bool {
        match self.general_calendar {
            Some(g) => g.days.runs_on(weekday_of(day)),
            None => false,
        }
    }

    /// Service runs on `day`: inside the date range, an exception decides,
    /// otherwise the weekday does.
    pub open spec fn active_on(&self, day: int) -> bool {
        self.in_range(day) && match self.exception_on(day) {
            Some(Exception::Added) => true,
            Some(Exception::Deleted) => false,
            None => self.weekly_active(day),
        }
    }

    pub fn find_exception(&self, day: i64) -> (r: Option<Exception>)
        ensures
            r == self.exception_on(day as int),
    {
        let n = self.exceptions.len();
        let mut i: usize = 0;
        assert(self.exceptions@.skip(0) =~= self.exceptions@);
        while i < n
            invariant
                n == self.exceptions@.len(),
                0 <= i <= n,
                self.exception_on(day as int) == exception_in(self.exceptions@.skip(i as int), day as int),
            decreases n - i,
        {
            let e = self.exceptions[i];
            assert(self.exceptions@.skip(i as int).drop_first() =~= self.exceptions@.skip(i as int + 1));
            if e.0 == day {
                return Some(e.1);
            }
            i = i + 1;
        }
        None
    }

    /// Records exception `ex` for `day`, replacing any earlier one for it.
    pub fn set_exception(&mut self, day: i64, ex: Exception)
        requires
            old(self).well_formed(),
        ensures
            final(self).well_formed(),
            final(self).id == old(self).id,
            final(self).general_calendar == old(self).general_calendar,
            forall|d: int| #[trigger] final(self).exception_on(d) == if d == day { Some(ex) } else { old(self).exception_on(d) },
    {
        let n = self.exceptions.len();
        let mut j: usize = 0;
        let mut found = false;
        while j < n && !found
            invariant
                n == self.exceptions@.len(),
                0 <= j <= n,
                found ==> j < n && self.exceptions@[j as int].0 == day,
                !found ==> forall|k: int| 0 <= k < j ==> #[trigger] self.exceptions@[k].0 != day,
            decreases n - j + (if found { 0int } else { 1int }),
        {
            if self.exceptions[j].0 == day {
                found = true;
            } else {
                j = j + 1;
            }
        }
        let ghost before = self.exceptions@;
        if found {
            self.exceptions[j] = (day, ex);
        } else {
            self.exceptions.push((day, ex));
        }
        proof {
            let after = self.exceptions@;
            assert(after[j as int] == (day, ex));
            assert forall|k: int| 0 <= k < before.len() && k != j implies #[trigger] after[k] == before[k] by {}
            assert forall|a: int, b: int| 0 <= a < b < after.len() implies after[a].0 != after[b].0 by {
                if found {
                    if a == j { assert(after[b] == before[b]); }
                    else if b == j { assert(after[a] == before[a]); }
                    else { assert(after[a] == before[a]); assert(after[b] == before[b]); }
                } else {
                    assert(after[a] == before[a]);
                    if b < n { assert(after[b] == before[b]); }
                }
            }
            assert forall|d: int| #[trigger] exception_in(after, d) == if d == day { Some(ex) } else { exception_in(before, d) } by {
                lemma_exception_in_unique(before, d);
                lemma_exception_in_unique(after, d);
                if d != day {
                    if exception_in(before, d) is Some {
                        let k = choose|k: int| 0 <= k < before.len() && !(#[trigger] before[k].0 != d);
                        assert(after[k] == before[k]);
                    } else {
                        assert forall|k: int| 0 <= k < after.len() implies #[trigger] after[k].0 != d by {
                            if k != j { assert(after[k] == before[k]); }
                        }
                    }
                }
            }
        }
    }

    /// Whether service runs on `day`.
    pub fn is_active_on(&self, day: i64) -> (r: bool)
        ensures
            r == self.active_on(day as int),
    {
        let in_range = match &self.general_calendar {
            Some(g) => g.start_date <= day && day <= g.end_date,
            None => true,
        };
        if !in_range {
            return false;
        }
        match self.find_exception(day) {
            Some(Exception::Added) => true,
            Some(Exception::Deleted) => false,
            None => match &self.general_calendar {
                Some(g) => g.days.runs_on_day(day),
                None => false,
            },
        }
    }
}

/// In a list with distinct dates the exception for `d` is the one entry
/// carrying `d`; there is none exactly when no entry carries `d`.
proof fn lemma_exception_in_unique(exs: Seq<(i64, Exception)>, d: int)
    ensures
        (exception_in(exs, d) is None) == (forall|k: int| 0 <= k < exs.len() ==> #[trigger] exs[k].0 != d),
        exception_dates_unique(exs) ==> forall|k: int| 0 <= k < exs.len() && #[trigger] exs[k].0 == d
            ==> exception_in(exs, d) == Some(exs[k].1),
    decreases exs.len(),
{
    if exs.len() > 0 {
        let rest = exs.drop_first();
        lemma_exception_in_unique(rest, d);
        assert forall|k: int| 0 <= k < rest.len() implies #[trigger] rest[k] == exs[k + 1] by {}
        if exs[0].0 != d {
            if forall|k: int| 0 <= k < rest.len() ==> #[trigger] rest[k].0 != d {
                assert forall|k: int| 0 <= k < exs.len() implies #[trigger] exs[k].0 != d by {
                    if k > 0 {
                        assert(rest[k - 1] == exs[k]);
                    }
                }
            }
            if exception_dates_unique(exs) {
                assert forall|a: int, b: int| 0 <= a < b < rest.len() implies rest[a].0 != rest[b].0 by {
                    assert(rest[a] == exs[a + 1]);
                    assert(rest[b] == exs[b + 1]);
                }
                assert forall|k: int| 0 <= k < exs.len() && #[trigger] exs[k].0 == d
                    implies exception_in(exs, d) == Some(exs[k].1) by {
                    assert(rest[k - 1] == exs[k]);
                }
            }
        } else if exception_dates_unique(exs) {
            assert forall|k: int| 0 <= k < exs.len() && #[trigger] exs[k].0 == d
                implies exception_in(exs, d) == Some(exs[k].1) by {
                if k > 0 {
                    assert(exs[0].0 != exs[k].0);
                }
            }
        }
    }
}

/// A day outside a calendar's date range is never active, whatever its
/// weekday or exceptions say.
pub proof fn lemma_outside_range_inactive(c: CalendarUnified, day: int)
    requires
        c.general_calendar is Some,
        day < c.general_calendar.unwrap().start_date || day > c.general_calendar.unwrap().end_date,
    ensures
        !c.active_on(day),
{
}

/// Inside the date range, an exception for a day overrides the weekday:
/// an added day runs even when its weekday does not, a removed day does not
/// run even when its weekday does.
pub proof fn lemma_exception_overrides_weekday(c: CalendarUnified, day: int)
    requires
        c.in_range(day),
    ensures
        c.exception_on(day) == Some(Exception::Added) ==> c.active_on(day),
        c.exception_on(day) == Some(Exception::Deleted) ==> !c.active_on(day),
        c.exception_on(day) is None ==> c.active_on(day) == c.weekly_active(day),
{
}

} // verus!
