use vstd::prelude::*;
use crate::merge::{departure_of, live_view, merge_partition, shown_time, sort_by_departure, sorted_by_shown_time, DepartingTrip, LiveStopTimeUpdate};
use crate::expand::ValidTripSet;
use crate::resolver::{window_low, window_high};

use crate::expand::copy_opt_string;

verus! {

/// The departures of one route that share a direction and a headsign.
#[derive(Clone, Debug)]
pub struct DepartingHeadsignGroup {
    pub headsign: Option<String>,
    pub direction_id: String,
    pub trips: Vec<DepartingTrip>,
}

/// The departures of one route of one partition, by direction and headsign.
#[derive(Clone, Debug)]
pub struct DepartureRouteGroup {
    pub chateau_id: String,
    pub route_id: String,
    pub directions: Vec<DepartingHeadsignGroup>,
}

pub open spec fn headsign_view(h: Option<String>) -> Option<Seq<char>> {
    match h {
        Some(s) => Some(s@),
        None => None,
    }
}

/// Departure `t` belongs to the headsign group with these keys.
pub open spec fn has_keys(t: DepartingTrip, chateau: Seq<char>, route: Seq<char>, direction: Seq<char>,
    headsign: Option<Seq<char>>) -> bool {
    t.chateau_id@ == chateau && t.route_id@ == route && t.direction_id@ == direction
        && headsign_view(t.headsign) == headsign
}

/// The departures of `trips` with these keys, in their order in `trips`.
pub open spec fn trips_with_keys(trips: Seq<DepartingTrip>, chateau: Seq<char>, route: Seq<char>, direction: Seq<char>,
    headsign: Option<Seq<char>>) -> Seq<DepartingTrip>
    decreases trips.len(),
{
    if trips.len() == 0 {
        Seq::empty()
    } else {
        let prev = trips_with_keys(trips.drop_last(), chateau, route, direction, headsign);
        if has_keys(trips.last(), chateau, route, direction, headsign) {
            prev.push(trips.last())
        } else {
            prev
        }
    }
}

pub open spec fn headsign_group_of(trips: Seq<DepartingTrip>, g: DepartureRouteGroup, h: DepartingHeadsignGroup) -> bool {
    &&& h.trips@.len() > 0
    &&& h.trips@ == trips_with_keys(trips, g.chateau_id@, g.route_id@, h.direction_id@, headsign_view(h.headsign))
}

pub open spec fn route_group_of(trips: Seq<DepartingTrip>, g: DepartureRouteGroup) -> bool {
    &&& g.directions@.len() > 0
    &&& forall|x: int, y: int| 0 <= x < y < g.directions@.len() ==>
        !((#[trigger] g.directions@[x]).direction_id@ == (#[trigger] g.directions@[y]).direction_id@
            && headsign_view(g.directions@[x].headsign) == headsign_view(g.directions@[y].headsign))
    &&& forall|x: int| 0 <= x < g.directions@.len() ==> headsign_group_of(trips, g, #[trigger] g.directions@[x])
}

/// The groups split `trips` exactly: one route group per (partition, route),
/// inside it one group per (direction, headsign), each holding the matching
/// departures in their order in `trips`.
pub open spec fn groups_split(trips: Seq<DepartingTrip>, groups: Seq<DepartureRouteGroup>) -> bool {
    &&& forall|a: int, b: int| 0 <= a < b < groups.len() ==>
        !((#[trigger] groups[a]).chateau_id@ == (#[trigger] groups[b]).chateau_id@ && groups[a].route_id@ == groups[b].route_id@)
    &&& forall|a: int| 0 <= a < groups.len() ==> route_group_of(trips, #[trigger] groups[a])
    &&& forall|k: int| 0 <= k < trips.len() ==> covered(groups, #[trigger] trips[k])
}

/// Some headsign group carries the keys of `t`.
pub open spec fn covered(groups: Seq<DepartureRouteGroup>, t: DepartingTrip) -> bool {
    exists|a: int, x: int| 0 <= a < groups.len() && 0 <= x < groups[a].directions@.len()
        && #[trigger] has_keys(t, groups[a].chateau_id@, groups[a].route_id@,
            groups[a].directions@[x].direction_id@, headsign_view(groups[a].directions@[x].headsign))
}

fn same_headsign(a: &Option<String>, b: &Option<String>) -> (r: bool)
    ensures
        r == (headsign_view(*a) == headsign_view(*b)),
{
    match a {
        Some(x) => match b {
            Some(y) => {
                let r = *x == *y;
                assert(r ==> headsign_view(*a) == headsign_view(*b));
                assert(headsign_view(*a) == headsign_view(*b) ==> x@ == y@);
                r
            },
            None => false,
        },
        None => b.is_none(),
    }
}

proof fn lemma_trips_with_keys_step(prev: Seq<DepartingTrip>, next: Seq<DepartingTrip>, t: DepartingTrip)
    requires
        next == prev.push(t),
    ensures
        forall|c: Seq<char>, r: Seq<char>, d: Seq<char>, h: Option<Seq<char>>|
            #[trigger] trips_with_keys(next, c, r, d, h) == if has_keys(t, c, r, d, h) {
                trips_with_keys(prev, c, r, d, h).push(t)
            } else {
                trips_with_keys(prev, c, r, d, h)
            },
{
    assert(next.drop_last() =~= prev);
}

/// Groups departures by (partition, route), then by (direction, headsign),
/// keeping their order inside each group.
pub fn group_departures(trips: Vec<DepartingTrip>) -> (r: Vec<DepartureRouteGroup>)
    ensures
        groups_split(trips@, r@),
{
    let ghost all = trips@;
    let mut rest = trips;
    let mut groups: Vec<DepartureRouteGroup> = Vec::new();
    let ghost mut done: Seq<DepartingTrip> = Seq::empty();
    while rest.len() > 0
        invariant
            all == done + rest@,
            groups_split(done, groups@),
        decreases rest@.len(),
    {
        let ghost old_rest = rest@;
        let t = rest.remove(0);
        let ghost next = done.push(t);
        assert(all == next + rest@) by {
            assert(old_rest == seq![t] + rest@);
            assert(done + old_rest =~= next + rest@);
        }
        proof {
            lemma_trips_with_keys_step(done, next, t);
        }
        let ghost old_groups = groups@;
        // find the route group
        let mut a: usize = 0;
        let mut found = false;
        while a < groups.len() && !found
            invariant
                0 <= a <= groups@.len(),
                found ==> a < groups@.len() && groups@[a as int].chateau_id@ == t.chateau_id@ && groups@[a as int].route_id@ == t.route_id@,
                !found ==> forall|b: int| 0 <= b < a ==> !((#[trigger] groups@[b]).chateau_id@ == t.chateau_id@ && groups@[b].route_id@ == t.route_id@),
            decreases groups@.len() - a + (if found { 0int } else { 1int }),
        {
            if groups[a].chateau_id == t.chateau_id && groups[a].route_id == t.route_id {
                found = true;
            } else {
                a = a + 1;
            }
        }
        if !found {
            let h = DepartingHeadsignGroup {
                headsign: copy_opt_string(&t.headsign),
                direction_id: t.direction_id.clone(),
                trips: Vec::new(),
            };
            let g = DepartureRouteGroup { chateau_id: t.chateau_id.clone(), route_id: t.route_id.clone(), directions: Vec::new() };
            let mut h = h;
            h.trips.push(t);
            let mut g = g;
            g.directions.push(h);
            proof {
                assert(trips_with_keys(done, t.chateau_id@, t.route_id@, t.direction_id@, headsign_view(t.headsign)) =~= Seq::empty()) by {
                    lemma_no_keys_empty(done, groups@, t);
                }
                assert(h.trips@ =~= seq![t]);
                assert(g.directions@[0] == h);
                assert(route_group_of(next, g));
            }
            groups.push(g);
            proof {
                assert forall|b: int| 0 <= b < groups@.len() implies route_group_of(next, #[trigger] groups@[b]) by {
                    if b < old_groups.len() {
                        lemma_route_group_unaffected(done, next, t, groups@[b]);
                    }
                }
                assert forall|k: int| 0 <= k < next.len() implies covered(groups@, #[trigger] next[k]) by {
                    if k < done.len() {
                        assert(next[k] == done[k]);
                        let (b, x) = choose|b: int, x: int| 0 <= b < old_groups.len() && 0 <= x < old_groups[b].directions@.len()
                            && #[trigger] has_keys(done[k], old_groups[b].chateau_id@, old_groups[b].route_id@,
                                old_groups[b].directions@[x].direction_id@, headsign_view(old_groups[b].directions@[x].headsign));
                        assert(groups@[b] == old_groups[b]);
                    } else {
                        assert(has_keys(next[k], groups@[old_groups.len() as int].chateau_id@, groups@[old_groups.len() as int].route_id@,
                            groups@[old_groups.len() as int].directions@[0].direction_id@,
                            headsign_view(groups@[old_groups.len() as int].directions@[0].headsign)));
                    }
                }
            }
        } else {
            let mut g = groups.remove(a);
            assert(g == old_groups[a as int]);
            let ghost old_dirs = g.directions@;
            let mut x: usize = 0;
            let mut hfound = false;
            while x < g.directions.len() && !hfound
                invariant
                    0 <= x <= g.directions@.len(),
                    hfound ==> x < g.directions@.len() && g.directions@[x as int].direction_id@ == t.direction_id@
                        && headsign_view(g.directions@[x as int].headsign) == headsign_view(t.headsign),
                    !hfound ==> forall|y: int| 0 <= y < x ==> !((#[trigger] g.directions@[y]).direction_id@ == t.direction_id@
                        && headsign_view(g.directions@[y].headsign) == headsign_view(t.headsign)),
                decreases g.directions@.len() - x + (if hfound { 0int } else { 1int }),
            {
                if g.directions[x].direction_id == t.direction_id && same_headsign(&g.directions[x].headsign, &t.headsign) {
                    hfound = true;
                } else {
                    x = x + 1;
                }
            }
            let ghost new_h: DepartingHeadsignGroup;
            let ghost pos: int;
            if hfound {
                let mut h = g.directions.remove(x);
                h.trips.push(t);
                proof { new_h = h; pos = x as int; }
                g.directions.insert(x, h);
                assert(g.directions@ =~= old_dirs.update(pos, new_h));
            } else {
                let mut h = DepartingHeadsignGroup {
                    headsign: copy_opt_string(&t.headsign),
                    direction_id: t.direction_id.clone(),
                    trips: Vec::new(),
                };
                h.trips.push(t);
                proof { new_h = h; pos = old_dirs.len() as int; }
                g.directions.push(h);
                proof {
                    assert(trips_with_keys(done, t.chateau_id@, t.route_id@, t.direction_id@, headsign_view(t.headsign)) =~= Seq::empty()) by {
                        lemma_no_keys_empty(done, old_groups, t);
                    }
                    assert(new_h.trips@ =~= seq![t]);
                }
            }
            proof {
                assert(g.directions@[pos] == new_h);
                assert forall|y: int| 0 <= y < g.directions@.len() && y != pos implies #[trigger] g.directions@[y] == old_dirs[y] by {}
                assert(route_group_of(next, g));
            }
            groups.insert(a, g);
            proof {
                assert(groups@ =~= old_groups.update(a as int, g));
                assert forall|b: int| 0 <= b < groups@.len() implies route_group_of(next, #[trigger] groups@[b]) by {
                    if b != a {
                        lemma_route_group_unaffected(done, next, t, groups@[b]);
                    }
                }
                assert forall|k: int| 0 <= k < next.len() implies covered(groups@, #[trigger] next[k]) by {
                    if k < done.len() {
                        assert(next[k] == done[k]);
                        let (b, y) = choose|b: int, y: int| 0 <= b < old_groups.len() && 0 <= y < old_groups[b].directions@.len()
                            && #[trigger] has_keys(done[k], old_groups[b].chateau_id@, old_groups[b].route_id@,
                                old_groups[b].directions@[y].direction_id@, headsign_view(old_groups[b].directions@[y].headsign));
                        if b != a {
                            assert(groups@[b] == old_groups[b]);
                        } else if y != pos {
                            assert(groups@[b].directions@[y] == old_dirs[y]);
                        } else {
                            assert(has_keys(next[k], groups@[b].chateau_id@, groups@[b].route_id@,
                                groups@[b].directions@[y].direction_id@, headsign_view(groups@[b].directions@[y].headsign)));
                        }
                    } else {
                        assert(has_keys(next[k], groups@[a as int].chateau_id@, groups@[a as int].route_id@,
                            groups@[a as int].directions@[pos].direction_id@, headsign_view(groups@[a as int].directions@[pos].headsign)));
                    }
                }
            }
        }
        proof {
            done = next;
        }
    }
    assert(all =~= done);
    groups
}

/// A non-empty selection has a member in the source carrying the keys.
proof fn lemma_selection_member(trips: Seq<DepartingTrip>, c: Seq<char>, r: Seq<char>, d: Seq<char>, h: Option<Seq<char>>)
    requires
        trips_with_keys(trips, c, r, d, h).len() > 0,
    ensures
        exists|k: int| 0 <= k < trips.len() && #[trigger] has_keys(trips[k], c, r, d, h),
    decreases trips.len(),
{
    if !has_keys(trips.last(), c, r, d, h) {
        lemma_selection_member(trips.drop_last(), c, r, d, h);
        let k = choose|k: int| 0 <= k < trips.drop_last().len() && #[trigger] has_keys(trips.drop_last()[k], c, r, d, h);
        assert(trips[k] == trips.drop_last()[k]);
    } else {
        assert(has_keys(trips[trips.len() - 1], c, r, d, h));
    }
}

/// Where no group carries a departure's keys, no earlier departure had them.
proof fn lemma_no_keys_empty(done: Seq<DepartingTrip>, groups: Seq<DepartureRouteGroup>, t: DepartingTrip)
    requires
        groups_split(done, groups),
        forall|a: int, x: int| 0 <= a < groups.len() && 0 <= x < groups[a].directions@.len() ==>
            !#[trigger] has_keys(t, groups[a].chateau_id@, groups[a].route_id@,
                groups[a].directions@[x].direction_id@, headsign_view(groups[a].directions@[x].headsign)),
    ensures
        trips_with_keys(done, t.chateau_id@, t.route_id@, t.direction_id@, headsign_view(t.headsign)).len() == 0,
{
    let sel = trips_with_keys(done, t.chateau_id@, t.route_id@, t.direction_id@, headsign_view(t.headsign));
    if sel.len() > 0 {
        lemma_selection_member(done, t.chateau_id@, t.route_id@, t.direction_id@, headsign_view(t.headsign));
        let k = choose|k: int| 0 <= k < done.len() && #[trigger] has_keys(done[k], t.chateau_id@, t.route_id@, t.direction_id@, headsign_view(t.headsign));
        assert(covered(groups, done[k]));
        let (a, x) = choose|a: int, x: int| 0 <= a < groups.len() && 0 <= x < groups[a].directions@.len()
            && #[trigger] has_keys(done[k], groups[a].chateau_id@, groups[a].route_id@,
                groups[a].directions@[x].direction_id@, headsign_view(groups[a].directions@[x].headsign));
        assert(has_keys(t, groups[a].chateau_id@, groups[a].route_id@,
            groups[a].directions@[x].direction_id@, headsign_view(groups[a].directions@[x].headsign)));
    }
}

/// A route group of another route is not touched by a new departure.
proof fn lemma_route_group_unaffected(done: Seq<DepartingTrip>, next: Seq<DepartingTrip>, t: DepartingTrip, g: DepartureRouteGroup)
    requires
        next == done.push(t),
        route_group_of(done, g),
        !(g.chateau_id@ == t.chateau_id@ && g.route_id@ == t.route_id@),
    ensures
        route_group_of(next, g),
{
    lemma_trips_with_keys_step(done, next, t);
    assert forall|x: int| 0 <= x < g.directions@.len() implies headsign_group_of(next, g, #[trigger] g.directions@[x]) by {
        let h = g.directions@[x];
        assert(!has_keys(t, g.chateau_id@, g.route_id@, h.direction_id@, headsign_view(h.headsign)));
        assert(headsign_group_of(done, g, h));
    }
}

/// Each member of a selection is a member of its source.
proof fn lemma_selection_from_source(trips: Seq<DepartingTrip>, c: Seq<char>, r: Seq<char>, d: Seq<char>, h: Option<Seq<char>>)
    ensures
        forall|i: int| 0 <= i < trips_with_keys(trips, c, r, d, h).len() ==>
            trips.contains(#[trigger] trips_with_keys(trips, c, r, d, h)[i]),
    decreases trips.len(),
{
    if trips.len() > 0 {
        let prev = trips.drop_last();
        lemma_selection_from_source(prev, c, r, d, h);
        assert forall|i: int| 0 <= i < trips_with_keys(trips, c, r, d, h).len() implies
            trips.contains(#[trigger] trips_with_keys(trips, c, r, d, h)[i]) by {
            let sel = trips_with_keys(trips, c, r, d, h);
            if i < trips_with_keys(prev, c, r, d, h).len() {
                assert(sel[i] == trips_with_keys(prev, c, r, d, h)[i]);
                let k = choose|k: int| 0 <= k < prev.len() && prev[k] == sel[i];
                assert(trips[k] == prev[k]);
            } else {
                assert(sel[i] == trips[trips.len() - 1]);
            }
        }
    }
}

/// Selecting from a time-ordered list keeps the order.
proof fn lemma_selection_sorted(trips: Seq<DepartingTrip>, c: Seq<char>, r: Seq<char>, d: Seq<char>, h: Option<Seq<char>>)
    requires
        sorted_by_shown_time(trips),
    ensures
        sorted_by_shown_time(trips_with_keys(trips, c, r, d, h)),
    decreases trips.len(),
{
    if trips.len() > 0 {
        let prev = trips.drop_last();
        assert(sorted_by_shown_time(prev)) by {
            assert forall|a: int, b: int| 0 <= a <= b < prev.len() implies shown_time(#[trigger] prev[a]) <= shown_time(#[trigger] prev[b]) by {
                assert(prev[a] == trips[a] && prev[b] == trips[b]);
            }
        }
        lemma_selection_sorted(prev, c, r, d, h);
        lemma_selection_from_source(prev, c, r, d, h);
        let sp = trips_with_keys(prev, c, r, d, h);
        let sel = trips_with_keys(trips, c, r, d, h);
        if has_keys(trips.last(), c, r, d, h) {
            assert forall|a: int, b: int| 0 <= a <= b < sel.len() implies shown_time(#[trigger] sel[a]) <= shown_time(#[trigger] sel[b]) by {
                if b == sel.len() - 1 && a < b {
                    assert(prev.contains(sp[a]));
                    let k = choose|k: int| 0 <= k < prev.len() && prev[k] == sp[a];
                    assert(trips[k] == prev[k]);
                    assert(shown_time(trips[k]) <= shown_time(trips[trips.len() - 1]));
                } else if b < sel.len() - 1 {
                    assert(sel[a] == sp[a] && sel[b] == sp[b]);
                }
            }
        }
    }
}

/// Grouping a list ordered by shown time leaves every headsign group ordered
/// by shown time, earliest first.
pub proof fn lemma_groups_keep_time_order(trips: Seq<DepartingTrip>, groups: Seq<DepartureRouteGroup>, a: int, x: int)
    requires
        sorted_by_shown_time(trips),
        groups_split(trips, groups),
        0 <= a < groups.len(),
        0 <= x < groups[a].directions@.len(),
    ensures
        sorted_by_shown_time(groups[a].directions@[x].trips@),
{
    let g = groups[a];
    let h = g.directions@[x];
    assert(route_group_of(trips, g));
    assert(headsign_group_of(trips, g, h));
    lemma_selection_sorted(trips, g.chateau_id@, g.route_id@, h.direction_id@, headsign_view(h.headsign));
}

/// The grouped departures of one partition: its valid trips joined with the
/// live data the partition's authority gave (`None` when it could not be
/// resolved or reached), ordered by shown time and grouped by route,
/// direction and headsign.
pub fn partition_departures(valid: &Vec<ValidTripSet>, live: &Option<Vec<LiveStopTimeUpdate>>, query: i64,
    seek_back: u32, seek_forward: u32) -> (r: Vec<DepartureRouteGroup>)
    ensures
        exists|s: Seq<DepartingTrip>| {
            &&& sorted_by_shown_time(s)
            &&& s.to_multiset() == valid@.map_values(|v: ValidTripSet| departure_of(v, live_view(*live),
                window_low(query as int, seek_back as int), window_high(query as int, seek_forward as int))).to_multiset()
            &&& #[trigger] groups_split(s, r@)
        },
{
    let merged = merge_partition(valid, live, query, seek_back, seek_forward);
    let ghost m = merged@;
    let sorted = sort_by_departure(merged);
    let ghost s = sorted@;
    let r = group_departures(sorted);
    assert(groups_split(s, r@));
    r
}

/// No departures give no groups.
pub proof fn lemma_no_departures_no_groups(groups: Seq<DepartureRouteGroup>)
    requires
        groups_split(Seq::empty(), groups),
    ensures
        groups.len() == 0,
{
    if groups.len() > 0 {
        assert(route_group_of(Seq::empty(), groups[0]));
        assert(headsign_group_of(Seq::empty(), groups[0], groups[0].directions@[0]));
    }
}

} // verus!
