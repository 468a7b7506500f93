use vstd::prelude::*;
use crate::calendar_model::CalendarUnified;

verus! {

/// A headway descriptor: the trip repeats every `headway_secs` from
/// `start_time` up to `end_time` (seconds since the start of the service day).
#[derive(Clone, Copy, Debug, PartialEq, Eq, Structural)]
pub struct Frequency {
    pub start_time: u32,
    pub end_time: u32,
    pub headway_secs: u32,
    pub exact_times: bool,
}

/// The seek window around a query instant, in seconds since the epoch.
pub open spec fn window_low(query: int, seek_back: int) -> int {
    query - seek_back
}

pub open spec fn window_high(query: int, seek_forward: int) -> int {
    query + seek_forward
}

/// The `k`-th repeated instant of a headway trip at a stop, given the
/// reference start of the service day and the stop's offset into the trip.
pub open spec fn repeat_instant(f: Frequency, reference: int, offset: int, k: nat) -> int {
    reference + offset + f.start_time + k * f.headway_secs
}

/// The `k`-th repetition starts no later than the descriptor's end time.
pub open spec fn repeat_exists(f: Frequency, k: nat) -> bool {
    f.start_time + k * f.headway_secs <= f.end_time
}

/// Some repetition of `f` reaches the stop inside `[lo, hi]`.
pub open spec fn frequency_hits(f: Frequency, reference: int, offset: int, lo: int, hi: int) -> bool {
    exists|k: nat| #[trigger] repeat_exists(f, k) && lo <= repeat_instant(f, reference, offset, k) <= hi
}

/// A trip reaches the stop inside `[lo, hi]`: once at `reference + offset`
/// without headway descriptors, or at any repetition of any descriptor.
pub open spec fn trip_hits(freqs: Option<Seq<Frequency>>, reference: int, offset: int, lo: int, hi: int) -> bool {
    match freqs {
        None => lo <= reference + offset <= hi,
        Some(fs) => any_frequency_hits(fs, reference, offset, lo, hi),
    }
}

/// Some descriptor of `fs` reaches the stop inside `[lo, hi]`.
pub open spec fn any_frequency_hits(fs: Seq<Frequency>, reference: int, offset: int, lo: int, hi: int) -> bool {
    exists|i: int| 0 <= i < fs.len() && #[trigger] frequency_hits(fs[i], reference, offset, lo, hi)
}

/// Repetition `k` of `f` reaches the stop at `t`, inside `[lo, hi]`.
pub open spec fn hit_at(f: Frequency, reference: int, offset: int, lo: int, hi: int, t: int) -> bool {
    exists|k: nat| #[trigger] repeat_exists(f, k) && repeat_instant(f, reference, offset, k) == t && lo <= t <= hi
}

/// No repetition of `f` reaches the stop inside `[lo, hi]` before `t`.
pub open spec fn no_earlier_hit(f: Frequency, reference: int, offset: int, lo: int, hi: int, t: int) -> bool {
    forall|k: nat| #[trigger] repeat_exists(f, k) && lo <= repeat_instant(f, reference, offset, k) <= hi
        ==> t <= repeat_instant(f, reference, offset, k)
}

/// The first repetition of `f` that reaches the stop inside the window, as
/// an instant; `None` when no repetition does.
pub fn first_repetition_in_window(f: &Frequency, reference: i64, offset: u32, query: i64, seek_back: u32, seek_forward: u32)
    -> (r: Option<i128>)
    ensures
        r is Some == frequency_hits(*f, reference as int, offset as int,
            window_low(query as int, seek_back as int), window_high(query as int, seek_forward as int)),
        r matches Some(t) ==> hit_at(*f, reference as int, offset as int,
            window_low(query as int, seek_back as int), window_high(query as int, seek_forward as int), t as int)
            && no_earlier_hit(*f, reference as int, offset as int,
            window_low(query as int, seek_back as int), window_high(query as int, seek_forward as int), t as int),
{
    let lo: i128 = query as i128 - seek_back as i128;
    let hi: i128 = query as i128 + seek_forward as i128;
    let base: i128 = reference as i128 + offset as i128 + f.start_time as i128;
    if f.start_time > f.end_time {
        assert forall|k: nat| !#[trigger] repeat_exists(*f, k) by {
            assert(k * f.headway_secs >= 0) by (nonlinear_arith);
        }
        return None;
    }
    let span: i128 = f.end_time as i128 - f.start_time as i128;
    let h: i128 = f.headway_secs as i128;
    if h == 0 || base >= lo {
        // the first repetition is the earliest that can reach the window
        assert(repeat_exists(*f, 0));
        assert forall|k: nat| repeat_exists(*f, k) && lo <= #[trigger] repeat_instant(*f, reference as int, offset as int, k) <= hi
            implies base <= hi by {
            assert(k * f.headway_secs >= 0) by (nonlinear_arith);
        }
        if h == 0 {
            assert forall|k: nat| #[trigger] repeat_instant(*f, reference as int, offset as int, k) == base by {
                assert(k * 0 == 0) by (nonlinear_arith);
            }
        }
        let r = lo <= base && base <= hi;
        if r {
            assert(repeat_exists(*f, 0) && lo <= repeat_instant(*f, reference as int, offset as int, 0) <= hi);
            assert(repeat_instant(*f, reference as int, offset as int, 0) == base);
            assert forall|k: nat| #[trigger] repeat_exists(*f, k) && lo <= repeat_instant(*f, reference as int, offset as int, k) <= hi
                implies base <= repeat_instant(*f, reference as int, offset as int, k) by {
                assert(k * f.headway_secs >= 0) by (nonlinear_arith);
            }
            return Some(base);
        }
        return None;
    }
    // the smallest k with base + k * h >= lo
    let gap: i128 = lo - base;
    let k0: i128 = (gap + h - 1) / h;
    proof {
        let g = gap as int;
        let hh = h as int;
        assert(k0 * hh >= g && (k0 - 1) * hh < g && k0 >= 1) by (nonlinear_arith)
            requires
                k0 == (g + hh - 1) / hh,
                hh > 0,
                g > 0,
        {
            vstd::arithmetic::div_mod::lemma_fundamental_div_mod(g + hh - 1, hh);
        }
    }
    if k0 > span {
        // k0 * h >= k0 > span: no repetition reaches the window
        assert forall|k: nat| repeat_exists(*f, k) implies !(lo <= #[trigger] repeat_instant(*f, reference as int, offset as int, k)) by {
            let hh = h as int;
            assert(k * hh <= span);
            if k >= k0 {
                assert(k * hh >= k0 * hh) by (nonlinear_arith) requires k >= k0, hh > 0;
                assert(k0 * hh >= k0) by (nonlinear_arith) requires k0 >= 1, hh >= 1;
            } else {
                assert(k * hh <= (k0 - 1) * hh) by (nonlinear_arith) requires k <= k0 - 1, hh > 0;
            }
        }
        return None;
    }
    assert(0 <= k0 * h <= 0xffff_ffff * 0xffff_ffff) by (nonlinear_arith)
        requires 0 <= k0 <= span, span <= 0xffff_ffff, 0 < h <= 0xffff_ffff;
    let step: i128 = k0 * h;
    let r = step <= span && base + step <= hi;
    proof {
        let kk = k0 as nat;
        if r {
            assert(repeat_exists(*f, kk) && lo <= repeat_instant(*f, reference as int, offset as int, kk) <= hi);
            assert(repeat_instant(*f, reference as int, offset as int, kk) == base + step);
            assert forall|k: nat| #[trigger] repeat_exists(*f, k) && lo <= repeat_instant(*f, reference as int, offset as int, k) <= hi
                implies base + step <= repeat_instant(*f, reference as int, offset as int, k) by {
                let hh = h as int;
                if k >= k0 {
                    assert(k * hh >= k0 * hh) by (nonlinear_arith) requires k >= k0, hh > 0;
                } else {
                    assert(k * hh <= (k0 - 1) * hh) by (nonlinear_arith) requires k <= k0 - 1, hh > 0;
                }
            }
        } else {
            assert forall|k: nat| repeat_exists(*f, k) implies !(lo <= #[trigger] repeat_instant(*f, reference as int, offset as int, k) <= hi) by {
                let hh = h as int;
                if k >= k0 {
                    assert(k * hh >= k0 * hh) by (nonlinear_arith) requires k >= k0, hh > 0;
                } else {
                    assert(k * hh <= (k0 - 1) * hh) by (nonlinear_arith) requires k <= k0 - 1, hh > 0;
                }
            }
        }
    }
    if r { Some(base + step) } else { None }
}

/// Whether some repetition of `f` reaches the stop inside the window.
pub fn frequency_hits_window(f: &Frequency, reference: i64, offset: u32, query: i64, seek_back: u32, seek_forward: u32) -> (r: bool)
    ensures
        r == frequency_hits(*f, reference as int, offset as int,
            window_low(query as int, seek_back as int), window_high(query as int, seek_forward as int)),
{
    first_repetition_in_window(f, reference, offset, query, seek_back, seek_forward).is_some()
}

/// `t` is the earliest instant at which any descriptor of `fs` reaches the
/// stop inside `[lo, hi]`.
pub open spec fn is_first_departure(fs: Seq<Frequency>, reference: int, offset: int, lo: int, hi: int, t: int) -> bool {
    &&& exists|i: int| 0 <= i < fs.len() && #[trigger] hit_at(fs[i], reference, offset, lo, hi, t)
    &&& forall|j: int| 0 <= j < fs.len() ==> #[trigger] no_earlier_hit(fs[j], reference, offset, lo, hi, t)
}

/// The earliest repetition of a headway trip at its stop inside `[lo, hi]`.
pub open spec fn first_departure(fs: Seq<Frequency>, reference: int, offset: int, lo: int, hi: int) -> Option<int> {
    if exists|t: int| is_first_departure(fs, reference, offset, lo, hi, t) {
        Some(choose|t: int| is_first_departure(fs, reference, offset, lo, hi, t))
    } else {
        None
    }
}

/// The earliest repetition lies inside the window.
pub proof fn lemma_first_departure_bounds(fs: Seq<Frequency>, reference: int, offset: int, lo: int, hi: int)
    ensures
        first_departure(fs, reference, offset, lo, hi) matches Some(t) ==> lo <= t <= hi,
{
    if exists|t: int| is_first_departure(fs, reference, offset, lo, hi, t) {
        let t = choose|t: int| is_first_departure(fs, reference, offset, lo, hi, t);
        let i = choose|i: int| 0 <= i < fs.len() && #[trigger] hit_at(fs[i], reference, offset, lo, hi, t);
        assert(hit_at(fs[i], reference, offset, lo, hi, t));
    }
}

/// The earliest instant is unique, so `first_departure` names it.
pub proof fn lemma_first_departure_unique(fs: Seq<Frequency>, reference: int, offset: int, lo: int, hi: int, t: int)
    requires
        is_first_departure(fs, reference, offset, lo, hi, t),
    ensures
        first_departure(fs, reference, offset, lo, hi) == Some(t),
{
    let u = choose|u: int| is_first_departure(fs, reference, offset, lo, hi, u);
    let i = choose|i: int| 0 <= i < fs.len() && #[trigger] hit_at(fs[i], reference, offset, lo, hi, t);
    let k = choose|k: nat| #[trigger] repeat_exists(fs[i], k) && repeat_instant(fs[i], reference, offset, k) == t && lo <= t <= hi;
    assert(no_earlier_hit(fs[i], reference, offset, lo, hi, u));
    let i2 = choose|i2: int| 0 <= i2 < fs.len() && #[trigger] hit_at(fs[i2], reference, offset, lo, hi, u);
    let k2 = choose|k2: nat| #[trigger] repeat_exists(fs[i2], k2) && repeat_instant(fs[i2], reference, offset, k2) == u && lo <= u <= hi;
    assert(no_earlier_hit(fs[i2], reference, offset, lo, hi, t));
}

/// The earliest instant at which any descriptor of a headway trip reaches the
/// stop inside the window.
pub fn first_departure_in_window(fs: &Vec<Frequency>, reference: i64, offset: u32, query: i64, seek_back: u32, seek_forward: u32)
    -> (r: Option<i128>)
    ensures
        r == match first_departure(fs@, reference as int, offset as int,
            window_low(query as int, seek_back as int), window_high(query as int, seek_forward as int)) {
            Some(t) => Some(t as i128),
            None => None::<i128>,
        },
        r is Some == any_frequency_hits(fs@, reference as int, offset as int,
            window_low(query as int, seek_back as int), window_high(query as int, seek_forward as int)),
{
    let ghost lo = window_low(query as int, seek_back as int);
    let ghost hi = window_high(query as int, seek_forward as int);
    let ghost rf = reference as int;
    let ghost of = offset as int;
    let mut best: Option<i128> = None;
    let mut i: usize = 0;
    while i < fs.len()
        invariant
            0 <= i <= fs@.len(),
            lo == window_low(query as int, seek_back as int),
            hi == window_high(query as int, seek_forward as int),
            rf == reference, of == offset,
            best is None ==> forall|j: int| 0 <= j < i ==> !#[trigger] frequency_hits(fs@[j], rf, of, lo, hi),
            best matches Some(t) ==> (exists|j: int| 0 <= j < i && #[trigger] hit_at(fs@[j], rf, of, lo, hi, t as int))
                && forall|j: int| 0 <= j < i ==> #[trigger] no_earlier_hit(fs@[j], rf, of, lo, hi, t as int),
        decreases fs@.len() - i,
    {
        let cur = first_repetition_in_window(&fs[i], reference, offset, query, seek_back, seek_forward);
        let ghost old_best = best;
        match cur {
            Some(c) => {
                match best {
                    None => {
                        best = Some(c);
                        proof {
                            assert forall|j: int| 0 <= j < i + 1 implies #[trigger] no_earlier_hit(fs@[j], rf, of, lo, hi, c as int) by {
                                if j < i {
                                    assert(!frequency_hits(fs@[j], rf, of, lo, hi));
                                }
                            }
                        }
                    },
                    Some(b) => {
                        if c < b {
                            best = Some(c);
                            proof {
                                assert forall|j: int| 0 <= j < i + 1 implies #[trigger] no_earlier_hit(fs@[j], rf, of, lo, hi, c as int) by {
                                    if j < i {
                                        assert(no_earlier_hit(fs@[j], rf, of, lo, hi, b as int));
                                    }
                                }
                            }
                        } else {
                            proof {
                                let j0 = choose|j: int| 0 <= j < i && #[trigger] hit_at(fs@[j], rf, of, lo, hi, b as int);
                                assert(hit_at(fs@[j0], rf, of, lo, hi, b as int));
                            }
                        }
                    },
                }
            },
            None => {
                proof {
                    if best is Some {
                        let t = best.unwrap();
                        let j0 = choose|j: int| 0 <= j < i && #[trigger] hit_at(fs@[j], rf, of, lo, hi, t as int);
                        assert(hit_at(fs@[j0], rf, of, lo, hi, t as int));
                        assert forall|k: nat| #[trigger] repeat_exists(fs@[i as int], k) && lo <= repeat_instant(fs@[i as int], rf, of, k) <= hi
                            implies t <= repeat_instant(fs@[i as int], rf, of, k) by {
                            assert(frequency_hits(fs@[i as int], rf, of, lo, hi));
                        }
                        assert(no_earlier_hit(fs@[i as int], rf, of, lo, hi, t as int));
                    }
                }
            },
        }
        i = i + 1;
    }
    proof {
        match best {
            Some(t) => {
                assert(is_first_departure(fs@, rf, of, lo, hi, t as int));
                lemma_first_departure_unique(fs@, rf, of, lo, hi, t as int);
                let j0 = choose|j: int| 0 <= j < fs@.len() && #[trigger] hit_at(fs@[j], rf, of, lo, hi, t as int);
                let k = choose|k: nat| #[trigger] repeat_exists(fs@[j0], k) && repeat_instant(fs@[j0], rf, of, k) == t && lo <= t <= hi;
                assert(frequency_hits(fs@[j0], rf, of, lo, hi));
            },
            None => {
                if exists|t: int| is_first_departure(fs@, rf, of, lo, hi, t) {
                    let t = choose|t: int| is_first_departure(fs@, rf, of, lo, hi, t);
                    let j0 = choose|j: int| 0 <= j < fs@.len() && #[trigger] hit_at(fs@[j], rf, of, lo, hi, t);
                    let k = choose|k: nat| #[trigger] repeat_exists(fs@[j0], k) && repeat_instant(fs@[j0], rf, of, k) == t && lo <= t <= hi;
                    assert(frequency_hits(fs@[j0], rf, of, lo, hi));
                }
                if any_frequency_hits(fs@, rf, of, lo, hi) {
                    let j0 = choose|j: int| 0 <= j < fs@.len() && #[trigger] frequency_hits(fs@[j], rf, of, lo, hi);
                    assert(!frequency_hits(fs@[j0], rf, of, lo, hi));
                }
            },
        }
    }
    best
}

/// Whether the trip reaches its stop inside the seek window, given the
/// reference start of the service day.
pub fn trip_hits_window(freqs: &Option<Vec<Frequency>>, reference: i64, offset: u32, query: i64, seek_back: u32, seek_forward: u32) -> (r: bool)
    ensures
        r == trip_hits(opt_view(*freqs), reference as int, offset as int,
            window_low(query as int, seek_back as int), window_high(query as int, seek_forward as int)),
{
    match freqs {
        None => {
            let t: i128 = reference as i128 + offset as i128;
            query as i128 - seek_back as i128 <= t && t <= query as i128 + seek_forward as i128
        },
        Some(fs) => {
            assert(opt_view(*freqs) == Some(fs@));
            let n = fs.len();
            let mut i: usize = 0;
            while i < n
                invariant
                    n == fs@.len(),
                    opt_view(*freqs) == Some(fs@),
                    0 <= i <= n,
                    forall|j: int| 0 <= j < i ==> !#[trigger] frequency_hits(fs@[j], reference as int, offset as int,
                        window_low(query as int, seek_back as int), window_high(query as int, seek_forward as int)),
                decreases n - i,
            {
                if frequency_hits_window(&fs[i], reference, offset, query, seek_back, seek_forward) {
                    assert(frequency_hits(fs@[i as int], reference as int, offset as int,
                        window_low(query as int, seek_back as int), window_high(query as int, seek_forward as int)));
                    let ghost lo = window_low(query as int, seek_back as int);
                    let ghost hi = window_high(query as int, seek_forward as int);
                    assert(any_frequency_hits(fs@, reference as int, offset as int, lo, hi));
                    return true;
                }
                i = i + 1;
            }
            false
        },
    }
}

pub open spec fn opt_view(freqs: Option<Vec<Frequency>>) -> Option<Seq<Frequency>> {
    match freqs {
        Some(v) => Some(v@),
        None => None,
    }
}

/// A trip as the resolver sees it: its partition, its time zone, the offset
/// of the stop of interest from the start of the service day, and its headway
/// descriptors if it repeats.
#[derive(Clone, Debug)]
pub struct TripToFindScheduleFor {
    pub trip_id: String,
    pub chateau: String,
    pub timezone: String,
    pub time_since_start_of_service_date: u32,
    pub frequency: Option<Vec<Frequency>>,
    pub itinerary_id: String,
    pub direction_id: String,
}

/// The UTC instant (epoch seconds) at which the wall clock of the named IANA
/// time zone shows the date-time `naive_secs` (seconds since 1970-01-01T00:00
/// on the naive calendar); the earlier one where the wall clock shows it twice.
pub uninterp spec fn zoned_instant(tz: Seq<char>, naive_secs: int) -> Option<i64>;

/// Relies on chrono-tz's `FromStr for Tz` (IANA names) and on chrono's
/// `DateTime::from_timestamp`, `TimeZone::from_local_datetime` and
/// `MappedLocalTime::earliest`: converts a wall-clock date-time of a zone to
/// the instant it names. The result depends on its arguments alone.
#[verifier::external_body]
fn local_to_utc(tz: &str, naive_secs: i64) -> (r: Option<i64>)
    ensures
        r == zoned_instant(tz@, naive_secs as int),
{
    let zone = tz.parse::<chrono_tz::Tz>().ok()?;
    let naive = chrono::DateTime::from_timestamp(naive_secs, 0)?.naive_utc();
    chrono::TimeZone::from_local_datetime(&zone, &naive).earliest().map(|t| t.timestamp())
}

/// The instant of the first quarter hour from `naive + 900 * j` on, within
/// the same day, that the zone's wall clock shows: where a clock change
/// skips midnight, the instant the skipped span ends.
pub open spec fn first_shown_time(tz: Seq<char>, naive: int, j: int) -> Option<i64>
    decreases 96 - j,
{
    if j >= 96 || j < 0 {
        None
    } else {
        let x = naive + 900 * j;
        if i64::MIN <= x <= i64::MAX {
            match zoned_instant(tz, x) {
                Some(t) => Some(t),
                None => first_shown_time(tz, naive, j + 1),
            }
        } else {
            None
        }
    }
}

/// The instant that starts service day `day` in the trip's zone: local
/// midnight, or where midnight is skipped the first quarter hour the clock
/// shows. Zone offsets are under a day, so it lies within a day of the UTC
/// midnight of the same date; a conversion that says otherwise is refused.
pub open spec fn reference_start(tz: Seq<char>, day: int) -> Option<i64> {
    let naive = day * 86400;
    match first_shown_time(tz, naive, 0) {
        Some(t) => if naive - 86400 < t < naive + 86400 { Some(t) } else { None },
        None => None,
    }
}

fn day_start(tz: &str, naive: i128) -> (r: Option<i64>)
    requires
        -0x1_0000_0000_0000_0000_0000_0000 <= naive <= 0x1_0000_0000_0000_0000_0000_0000,
    ensures
        r == first_shown_time(tz@, naive as int, 0),
{
    let mut j: i128 = 0;
    while j < 96
        invariant
            0 <= j <= 96,
            -0x1_0000_0000_0000_0000_0000_0000 <= naive <= 0x1_0000_0000_0000_0000_0000_0000,
            first_shown_time(tz@, naive as int, 0) == first_shown_time(tz@, naive as int, j as int),
        decreases 96 - j,
    {
        let x: i128 = naive + 900 * j;
        if !(i64::MIN as i128 <= x && x <= i64::MAX as i128) {
            return None;
        }
        match local_to_utc(tz, x as i64) {
            Some(t) => {
                return Some(t);
            },
            None => {},
        }
        j = j + 1;
    }
    None
}

/// Whether the trip serves its stop inside the window on service day `day`,
/// given the reference start of that day.
pub open spec fn served_with(c: CalendarUnified, t: TripToFindScheduleFor, day: int, reference: Option<i64>,
    query: int, seek_back: int, seek_forward: int) -> bool {
    &&& c.active_on(day)
    &&& reference is Some
    &&& trip_hits(opt_view(t.frequency), reference.unwrap() as int, t.time_since_start_of_service_date as int,
            window_low(query, seek_back), window_high(query, seek_forward))
}

/// Whether the trip is served on `day`, given the reference start of that day
/// as the time-zone conversion gave it.
pub fn is_served_with(c: &CalendarUnified, t: &TripToFindScheduleFor, day: i64, reference: Option<i64>,
    query: i64, seek_back: u32, seek_forward: u32) -> (r: bool)
    ensures
        r == served_with(*c, *t, day as int, reference, query as int, seek_back as int, seek_forward as int),
{
    if !c.is_active_on(day) {
        return false;
    }
    match reference {
        None => false,
        Some(m) => trip_hits_window(&t.frequency, m, t.time_since_start_of_service_date, query, seek_back, seek_forward),
    }
}

/// The latest end time among headway descriptors (0 without any).
pub open spec fn max_end(fs: Seq<Frequency>) -> int
    decreases fs.len(),
{
    if fs.len() == 0 {
        0
    } else {
        let rest = max_end(fs.drop_last());
        if fs.last().end_time > rest { fs.last().end_time as int } else { rest }
    }
}

pub open spec fn trip_extent(t: TripToFindScheduleFor) -> int {
    t.time_since_start_of_service_date + match t.frequency {
        Some(fs) => max_end(fs@),
        None => 0,
    }
}

/// The first and last service days examined: every day whose local midnight
/// could, in any zone, place a stop time of the trip inside the window.
pub open spec fn first_candidate_day(t: TripToFindScheduleFor, query: int, seek_back: int) -> int {
    (window_low(query, seek_back) - trip_extent(t)) / 86400 - 1
}

pub open spec fn last_candidate_day(query: int, seek_forward: int) -> int {
    window_high(query, seek_forward) / 86400 + 1
}

/// The `(service day, reference start)` pairs for the days `first..=last` on
/// which the trip is served inside the window, in increasing day order.
pub open spec fn served_days(c: CalendarUnified, t: TripToFindScheduleFor, query: int, seek_back: int,
    seek_forward: int, first: int, last: int) -> Seq<(i64, i64)>
    decreases last - first + 1,
{
    if last < first {
        Seq::empty()
    } else {
        let prev = served_days(c, t, query, seek_back, seek_forward, first, last - 1);
        let reference = reference_start(t.timezone@, last);
        if served_with(c, t, last, reference, query, seek_back, seek_forward) {
            prev.push((last as i64, reference.unwrap()))
        } else {
            prev
        }
    }
}

fn max_end_of(fs: &Vec<Frequency>) -> (r: u32)
    ensures
        r == max_end(fs@),
{
    let mut m: u32 = 0;
    let mut i: usize = 0;
    while i < fs.len()
        invariant
            0 <= i <= fs@.len(),
            m == max_end(fs@.subrange(0, i as int)),
        decreases fs@.len() - i,
    {
        assert(fs@.subrange(0, i as int + 1).drop_last() =~= fs@.subrange(0, i as int));
        if fs[i].end_time > m {
            m = fs[i].end_time;
        }
        i = i + 1;
    }
    assert(fs@.subrange(0, fs@.len() as int) =~= fs@);
    m
}

/// Floor division by the length of a day.
fn day_of_instant(x: i128) -> (r: i128)
    requires
        -0x1_0000_0000_0000_0000_0000 <= x <= 0x1_0000_0000_0000_0000_0000,
    ensures
        r == x as int / 86400,
{
    if x >= 0 {
        x / 86400
    } else {
        let y: i128 = -x;
        let a: i128 = (y + 86399) / 86400;
        proof {
            let b = (y + 86399) as int % 86400;
            vstd::arithmetic::div_mod::lemma_fundamental_div_mod(y + 86399, 86400);
            assert(0 <= b < 86400);
            assert(x == (-a) * 86400 + (86399 - b));
            vstd::arithmetic::div_mod::lemma_fundamental_div_mod_converse(x as int, 86400, -a, 86399 - b);
        }
        -a
    }
}

/// The service days, with the reference start of each, on which a trip of
/// calendar `service` serves its stop inside the window
/// `[query - seek_back, query + seek_forward]`.
pub fn find_service_ranges(service: &CalendarUnified, trip: &TripToFindScheduleFor, query: i64,
    seek_back: u32, seek_forward: u32) -> (r: Vec<(i64, i64)>)
    ensures
        r@ == served_days(*service, *trip, query as int, seek_back as int, seek_forward as int,
            first_candidate_day(*trip, query as int, seek_back as int),
            last_candidate_day(query as int, seek_forward as int)),
{
    let ext: u32 = match &trip.frequency {
        Some(fs) => max_end_of(fs),
        None => 0,
    };
    let lo: i128 = query as i128 - seek_back as i128;
    let hi: i128 = query as i128 + seek_forward as i128;
    let first: i128 = day_of_instant(lo - trip.time_since_start_of_service_date as i128 - ext as i128) - 1;
    let last: i128 = day_of_instant(hi) + 1;
    let ghost g_first = first as int;
    let mut out: Vec<(i64, i64)> = Vec::new();
    let mut day: i128 = first;
    while day <= last
        invariant
            first == g_first,
            g_first <= day <= last + 1,
            -0x1_0000_0000_0000_0000 <= first,
            last <= 0x1_0000_0000_0000_0000,
            first == first_candidate_day(*trip, query as int, seek_back as int),
            last == last_candidate_day(query as int, seek_forward as int),
            out@ == served_days(*service, *trip, query as int, seek_back as int, seek_forward as int, g_first, day - 1),
        decreases last + 1 - day,
    {
        let naive: i128 = day * 86400;
        let reference: Option<i64> = match day_start(trip.timezone.as_str(), naive) {
            Some(t) => if naive - 86400 < t as i128 && (t as i128) < naive + 86400 { Some(t) } else { None },
            None => None,
        };
        assert(reference == reference_start(trip.timezone@, day as int));
        if is_served_with(service, trip, day as i64, reference, query, seek_back, seek_forward) {
            out.push((day as i64, reference.unwrap()));
        }
        day = day + 1;
    }
    out
}


/// Every day listed by `served_days` lies in `first..=last` and is served on
/// it with its reference start; and every such day that is served is listed.
pub proof fn lemma_served_days_members(c: CalendarUnified, t: TripToFindScheduleFor, query: int, seek_back: int,
    seek_forward: int, first: int, last: int)
    ensures
        forall|i: int| 0 <= i < served_days(c, t, query, seek_back, seek_forward, first, last).len() ==> {
            let e = #[trigger] served_days(c, t, query, seek_back, seek_forward, first, last)[i];
            &&& first <= e.0 <= last
            &&& served_with(c, t, e.0 as int, Some(e.1), query, seek_back, seek_forward)
            &&& reference_start(t.timezone@, e.0 as int) == Some(e.1)
        },
        forall|d: int| first <= d <= last && #[trigger] served_with(c, t, d, reference_start(t.timezone@, d), query, seek_back, seek_forward)
            ==> served_days(c, t, query, seek_back, seek_forward, first, last).contains((d as i64, reference_start(t.timezone@, d).unwrap())),
    decreases last - first + 1,
{
    if last >= first {
        lemma_served_days_members(c, t, query, seek_back, seek_forward, first, last - 1);
        let prev = served_days(c, t, query, seek_back, seek_forward, first, last - 1);
        let cur = served_days(c, t, query, seek_back, seek_forward, first, last);
        assert forall|d: int| first <= d <= last && #[trigger] served_with(c, t, d, reference_start(t.timezone@, d), query, seek_back, seek_forward)
            implies cur.contains((d as i64, reference_start(t.timezone@, d).unwrap())) by {
            if d < last {
                let j = choose|j: int| 0 <= j < prev.len() && prev[j] == (d as i64, reference_start(t.timezone@, d).unwrap());
                assert(cur[j] == prev[j]);
            } else {
                assert(cur[prev.len() as int] == (d as i64, reference_start(t.timezone@, d).unwrap()));
            }
        }
    }
}

/// Every day the resolver lists is a day on which the calendar runs, so in
/// particular a day outside the calendar's date range is never listed.
pub proof fn lemma_resolver_lists_only_active_days(c: CalendarUnified, t: TripToFindScheduleFor, query: int,
    seek_back: int, seek_forward: int)
    ensures
        forall|i: int| 0 <= i < served_days(c, t, query, seek_back, seek_forward,
            first_candidate_day(t, query, seek_back), last_candidate_day(query, seek_forward)).len()
            ==> c.active_on((#[trigger] served_days(c, t, query, seek_back, seek_forward,
            first_candidate_day(t, query, seek_back), last_candidate_day(query, seek_forward))[i]).0 as int),
{
    lemma_served_days_members(c, t, query, seek_back, seek_forward,
        first_candidate_day(t, query, seek_back), last_candidate_day(query, seek_forward));
}

proof fn lemma_max_end_bound(fs: Seq<Frequency>, i: int)
    requires
        0 <= i < fs.len(),
    ensures
        fs[i].end_time <= max_end(fs),
        0 <= max_end(fs),
    decreases fs.len(),
{
    if i < fs.len() - 1 {
        lemma_max_end_bound(fs.drop_last(), i);
        assert(fs.drop_last()[i] == fs[i]);
    }
    if fs.len() > 1 {
        lemma_max_end_bound(fs.drop_last(), 0);
    }
}

/// A day on which the trip is served lies among the candidate days.
proof fn lemma_served_day_is_candidate(c: CalendarUnified, t: TripToFindScheduleFor, query: int,
    seek_back: int, seek_forward: int, day: int)
    requires
        served_with(c, t, day, reference_start(t.timezone@, day), query, seek_back, seek_forward),
    ensures
        first_candidate_day(t, query, seek_back) <= day <= last_candidate_day(query, seek_forward),
{
    let m = reference_start(t.timezone@, day).unwrap() as int;
    let naive = day * 86400;
    assert(naive - 86400 < m < naive + 86400);
    let lo = window_low(query, seek_back);
    let hi = window_high(query, seek_forward);
    let tss = t.time_since_start_of_service_date as int;
    let ext = trip_extent(t);
    // some stop time m + tss + x, with 0 <= x <= ext - tss, falls in [lo, hi]
    let x: int = match t.frequency {
        None => 0,
        Some(fs) => {
            let fsv = fs@;
            assert(any_frequency_hits(fsv, m, tss, lo, hi));
            let i = choose|i: int| 0 <= i < fsv.len() && #[trigger] frequency_hits(fsv[i], m, tss, lo, hi);
            let k = choose|k: nat| #[trigger] repeat_exists(fsv[i], k) && lo <= repeat_instant(fsv[i], m, tss, k) <= hi;
            lemma_max_end_bound(fsv, i);
            assert(k * fsv[i].headway_secs >= 0) by (nonlinear_arith);
            fsv[i].start_time + k * fsv[i].headway_secs
        },
    };
    assert(0 <= x && tss + x <= ext && lo <= m + tss + x <= hi);
    let a = lo - ext;
    assert(a < (day + 1) * 86400) by (nonlinear_arith)
        requires a <= m, m < naive + 86400, naive == day * 86400;
    assert(a / 86400 <= day) by (nonlinear_arith)
        requires a < (day + 1) * 86400;
    assert((day - 1) * 86400 < hi) by (nonlinear_arith)
        requires m <= hi, naive - 86400 < m, naive == day * 86400;
    assert(day - 1 <= hi / 86400) by (nonlinear_arith)
        requires (day - 1) * 86400 < hi;
}

/// The resolver lists every service day on which the trip is served: for a
/// headway trip that is as soon as any of its repetitions, not only the
/// first, reaches the stop inside the window on an active day.
pub proof fn lemma_any_repetition_matches(c: CalendarUnified, t: TripToFindScheduleFor, query: int,
    seek_back: int, seek_forward: int, day: int, i: int, k: nat)
    requires
        t.frequency is Some,
        0 <= i < t.frequency.unwrap()@.len(),
        c.active_on(day),
        reference_start(t.timezone@, day) is Some,
        repeat_exists(t.frequency.unwrap()@[i], k),
        window_low(query, seek_back) <= repeat_instant(t.frequency.unwrap()@[i],
            reference_start(t.timezone@, day).unwrap() as int, t.time_since_start_of_service_date as int, k)
            <= window_high(query, seek_forward),
    ensures
        served_days(c, t, query, seek_back, seek_forward,
            first_candidate_day(t, query, seek_back), last_candidate_day(query, seek_forward))
            .contains((day as i64, reference_start(t.timezone@, day).unwrap())),
{
    let fs = t.frequency.unwrap()@;
    let m = reference_start(t.timezone@, day).unwrap() as int;
    let lo = window_low(query, seek_back);
    let hi = window_high(query, seek_forward);
    assert(frequency_hits(fs[i], m, t.time_since_start_of_service_date as int, lo, hi));
    assert(any_frequency_hits(fs, m, t.time_since_start_of_service_date as int, lo, hi));
    assert(served_with(c, t, day, reference_start(t.timezone@, day), query, seek_back, seek_forward));
    lemma_served_day_is_candidate(c, t, query, seek_back, seek_forward, day);
    lemma_served_days_members(c, t, query, seek_back, seek_forward,
        first_candidate_day(t, query, seek_back), last_candidate_day(query, seek_forward));
}

/// The resolver lists exactly the days on which the trip is served, each with
/// the reference start of that day: no other day, and every such day.
pub proof fn lemma_resolver_exact(c: CalendarUnified, t: TripToFindScheduleFor, query: int, seek_back: int,
    seek_forward: int, day: int)
    requires
        i64::MIN <= day <= i64::MAX,
    ensures
        served_with(c, t, day, reference_start(t.timezone@, day), query, seek_back, seek_forward)
            <==> served_days(c, t, query, seek_back, seek_forward,
                first_candidate_day(t, query, seek_back), last_candidate_day(query, seek_forward))
                .contains((day as i64, reference_start(t.timezone@, day).unwrap())),
{
    let first = first_candidate_day(t, query, seek_back);
    let last = last_candidate_day(query, seek_forward);
    let sd = served_days(c, t, query, seek_back, seek_forward, first, last);
    lemma_served_days_members(c, t, query, seek_back, seek_forward, first, last);
    if served_with(c, t, day, reference_start(t.timezone@, day), query, seek_back, seek_forward) {
        lemma_served_day_is_candidate(c, t, query, seek_back, seek_forward, day);
    }
    if sd.contains((day as i64, reference_start(t.timezone@, day).unwrap())) {
        let j = choose|j: int| 0 <= j < sd.len() && sd[j] == (day as i64, reference_start(t.timezone@, day).unwrap());
        assert(sd[j].0 as int == day);
        assert(served_with(c, t, sd[j].0 as int, Some(sd[j].1), query, seek_back, seek_forward));
    }
}

/// Inside the date range, an added day is listed whenever the trip reaches
/// its stop inside the window, even where its weekday does not run; a removed
/// day is never listed, even where its weekday runs.
pub proof fn lemma_resolver_exception_overrides_weekday(c: CalendarUnified, t: TripToFindScheduleFor, query: int,
    seek_back: int, seek_forward: int, day: int)
    requires
        i64::MIN <= day <= i64::MAX,
        c.in_range(day),
    ensures
        c.exception_on(day) == Some(crate::calendar_model::Exception::Added)
            && reference_start(t.timezone@, day) is Some
            && trip_hits(opt_view(t.frequency), reference_start(t.timezone@, day).unwrap() as int,
                t.time_since_start_of_service_date as int, window_low(query, seek_back), window_high(query, seek_forward))
            ==> served_days(c, t, query, seek_back, seek_forward,
                first_candidate_day(t, query, seek_back), last_candidate_day(query, seek_forward))
                .contains((day as i64, reference_start(t.timezone@, day).unwrap())),
        c.exception_on(day) == Some(crate::calendar_model::Exception::Deleted) ==>
            forall|i: int| 0 <= i < served_days(c, t, query, seek_back, seek_forward,
                first_candidate_day(t, query, seek_back), last_candidate_day(query, seek_forward)).len()
                ==> (#[trigger] served_days(c, t, query, seek_back, seek_forward,
                first_candidate_day(t, query, seek_back), last_candidate_day(query, seek_forward))[i]).0 != day,
{
    lemma_resolver_exact(c, t, query, seek_back, seek_forward, day);
    let first = first_candidate_day(t, query, seek_back);
    let last = last_candidate_day(query, seek_forward);
    let sd = served_days(c, t, query, seek_back, seek_forward, first, last);
    lemma_served_days_members(c, t, query, seek_back, seek_forward, first, last);
    if c.exception_on(day) == Some(crate::calendar_model::Exception::Deleted) {
        assert forall|j: int| 0 <= j < sd.len() implies (#[trigger] sd[j]).0 != day by {
            assert(served_with(c, t, sd[j].0 as int, Some(sd[j].1), query, seek_back, seek_forward));
        }
    }
}

} // verus!
