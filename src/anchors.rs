use vstd::prelude::*;
use vstd::seq_lib::{group_to_multiset_ensures, to_multiset_build, to_multiset_insert};
use vstd::multiset::{group_multiset_axioms, Multiset};

verus! {

/// A stop found by the spatial query, with its distance to the query point
/// in millimetres.
#[derive(Clone, Debug)]
pub struct NearbyStop {
    pub chateau: String,
    pub stop_id: String,
    pub distance_mm: u64,
}

/// One stop of a direction pattern: the stop and its sequence number there.
#[derive(Clone, Debug)]
pub struct DirectionPatternRow {
    pub chateau: String,
    pub stop_id: String,
    pub direction_pattern_id: String,
    pub stop_sequence: u32,
}

/// The stop chosen as the fan-out anchor of a direction pattern.
#[derive(Clone, Debug)]
pub struct AnchorStop {
    pub chateau: String,
    pub direction_pattern_id: String,
    pub stop_id: String,
    pub stop_sequence: u32,
    pub distance_mm: u64,
}

/// Row `r` places stop `s` on a direction pattern.
pub open spec fn row_at_stop(r: DirectionPatternRow, s: NearbyStop) -> bool {
    r.chateau@ == s.chateau@ && r.stop_id@ == s.stop_id@
}

/// Row `r` belongs to direction pattern `dir` of partition `chateau`.
pub open spec fn row_of(r: DirectionPatternRow, chateau: Seq<char>, dir: Seq<char>) -> bool {
    r.chateau@ == chateau && r.direction_pattern_id@ == dir
}

/// Stop `s` lies on direction pattern `dir` of partition `chateau`.
pub open spec fn serves(rows: Seq<DirectionPatternRow>, s: NearbyStop, chateau: Seq<char>, dir: Seq<char>) -> bool {
    exists|k: int| 0 <= k < rows.len() && row_at_stop(#[trigger] rows[k], s) && row_of(rows[k], chateau, dir)
}

pub open spec fn anchor_of(a: AnchorStop, chateau: Seq<char>, dir: Seq<char>) -> bool {
    a.chateau@ == chateau && a.direction_pattern_id@ == dir
}

/// Anchor `a` was taken from stop `i` and row `k`, and no stop before `i`
/// lies on its direction pattern.
#[verifier::opaque]
pub open spec fn anchored_at(stops: Seq<NearbyStop>, rows: Seq<DirectionPatternRow>, a: AnchorStop, i: int, k: int) -> bool {
    &&& 0 <= i < stops.len()
    &&& 0 <= k < rows.len()
    &&& row_at_stop(rows[k], stops[i])
    &&& row_of(rows[k], a.chateau@, a.direction_pattern_id@)
    &&& a.stop_id@ == stops[i].stop_id@
    &&& a.stop_sequence == rows[k].stop_sequence
    &&& a.distance_mm == stops[i].distance_mm
    &&& forall|j: int| 0 <= j < i ==> !serves(rows, #[trigger] stops[j], a.chateau@, a.direction_pattern_id@)
}

/// Anchor `a` was taken from some stop and row as `anchored_at` says.
pub open spec fn anchor_witnessed(stops: Seq<NearbyStop>, rows: Seq<DirectionPatternRow>, a: AnchorStop) -> bool {
    exists|i: int, k: int| anchored_at(stops, rows, a, i, k)
}

/// `anchors` holds one entry per direction pattern met along `stops`, taken
/// from the first stop in `stops` that lies on it.
pub open spec fn anchors_first_wins(stops: Seq<NearbyStop>, rows: Seq<DirectionPatternRow>, anchors: Seq<AnchorStop>) -> bool {
    &&& forall|a: int, b: int| 0 <= a < b < anchors.len()
        ==> !anchor_of(#[trigger] anchors[a], anchors[b].chateau@, #[trigger] anchors[b].direction_pattern_id@)
    &&& forall|a: int| 0 <= a < anchors.len() ==> anchor_witnessed(stops, rows, #[trigger] anchors[a])
    &&& forall|i: int, k: int| 0 <= i < stops.len() && 0 <= k < rows.len() && row_at_stop(#[trigger] rows[k], #[trigger] stops[i])
        ==> exists|a: int| 0 <= a < anchors.len() && anchor_of(#[trigger] anchors[a], rows[k].chateau@, rows[k].direction_pattern_id@)
}

fn find_anchor(anchors: &Vec<AnchorStop>, chateau: &String, dir: &String) -> (r: bool)
    ensures
        r == exists|a: int| 0 <= a < anchors@.len() && anchor_of(#[trigger] anchors@[a], chateau@, dir@),
{
    let mut i: usize = 0;
    while i < anchors.len()
        invariant
            0 <= i <= anchors@.len(),
            forall|a: int| 0 <= a < i ==> !anchor_of(#[trigger] anchors@[a], chateau@, dir@),
        decreases anchors@.len() - i,
    {
        if anchors[i].chateau == *chateau && anchors[i].direction_pattern_id == *dir {
            assert(anchor_of(anchors@[i as int], chateau@, dir@));
            return true;
        }
        i = i + 1;
    }
    false
}

/// Walks `stops` in order and gives each direction pattern met the first stop
/// that lies on it: over a distance-sorted walk, the nearest one.
#[verifier::rlimit(50)]
pub fn assign_anchor_stops(stops: &Vec<NearbyStop>, rows: &Vec<DirectionPatternRow>) -> (r: Vec<AnchorStop>)
    ensures
        anchors_first_wins(stops@, rows@, r@),
{
    let mut anchors: Vec<AnchorStop> = Vec::new();
    let mut i: usize = 0;
    while i < stops.len()
        invariant
            0 <= i <= stops@.len(),
            forall|a: int, b: int| 0 <= a < b < anchors@.len()
                ==> !anchor_of(#[trigger] anchors@[a], anchors@[b].chateau@, #[trigger] anchors@[b].direction_pattern_id@),
            forall|a: int| 0 <= a < anchors@.len() ==> anchor_witnessed(stops@, rows@, #[trigger] anchors@[a]),
            forall|i2: int, k: int| 0 <= i2 < i && 0 <= k < rows@.len() && row_at_stop(#[trigger] rows@[k], #[trigger] stops@[i2])
                ==> exists|a: int| 0 <= a < anchors@.len() && anchor_of(#[trigger] anchors@[a], rows@[k].chateau@, rows@[k].direction_pattern_id@),
        decreases stops@.len() - i,
    {
        let s = &stops[i];
        let mut k: usize = 0;
        while k < rows.len()
            invariant
                0 <= i < stops@.len(),
                *s == stops@[i as int],
                0 <= k <= rows@.len(),
                forall|a: int, b: int| 0 <= a < b < anchors@.len()
                    ==> !anchor_of(#[trigger] anchors@[a], anchors@[b].chateau@, #[trigger] anchors@[b].direction_pattern_id@),
                forall|a: int| 0 <= a < anchors@.len() ==> anchor_witnessed(stops@, rows@, #[trigger] anchors@[a]),
                forall|i2: int, k2: int| 0 <= i2 < i && 0 <= k2 < rows@.len() && row_at_stop(#[trigger] rows@[k2], #[trigger] stops@[i2])
                    ==> exists|a: int| 0 <= a < anchors@.len() && anchor_of(#[trigger] anchors@[a], rows@[k2].chateau@, rows@[k2].direction_pattern_id@),
                forall|k2: int| 0 <= k2 < k && row_at_stop(#[trigger] rows@[k2], stops@[i as int])
                    ==> exists|a: int| 0 <= a < anchors@.len() && anchor_of(#[trigger] anchors@[a], rows@[k2].chateau@, rows@[k2].direction_pattern_id@),
            decreases rows@.len() - k,
        {
            let row = &rows[k];
            if row.chateau == s.chateau && row.stop_id == s.stop_id {
                if !find_anchor(&anchors, &row.chateau, &row.direction_pattern_id) {
                    let new_anchor = AnchorStop {
                        chateau: row.chateau.clone(),
                        direction_pattern_id: row.direction_pattern_id.clone(),
                        stop_id: s.stop_id.clone(),
                        stop_sequence: row.stop_sequence,
                        distance_mm: s.distance_mm,
                    };
                    proof {
                        // no earlier stop lies on this pattern, or it would have an anchor
                        assert forall|j: int| 0 <= j < i implies !serves(rows@, #[trigger] stops@[j], new_anchor.chateau@, new_anchor.direction_pattern_id@) by {
                            if serves(rows@, stops@[j], new_anchor.chateau@, new_anchor.direction_pattern_id@) {
                                let k3 = choose|k3: int| 0 <= k3 < rows@.len() && row_at_stop(#[trigger] rows@[k3], stops@[j])
                                    && row_of(rows@[k3], new_anchor.chateau@, new_anchor.direction_pattern_id@);
                                assert(row_at_stop(rows@[k3], stops@[j]));
                            }
                        }
                        reveal(anchored_at);
                        assert(anchored_at(stops@, rows@, new_anchor, i as int, k as int));
                    }
                    let ghost old_anchors = anchors@;
                    anchors.push(new_anchor);
                    proof {
                        assert(anchors@[old_anchors.len() as int] == new_anchor);
                        assert forall|a: int| 0 <= a < anchors@.len() implies anchor_witnessed(stops@, rows@, #[trigger] anchors@[a]) by {
                            if a < old_anchors.len() {
                                assert(anchors@[a] == old_anchors[a]);
                            } else {
                                assert(anchored_at(stops@, rows@, anchors@[a], i as int, k as int));
                            }
                        }
                        assert forall|i2: int, k2: int| 0 <= i2 < i && 0 <= k2 < rows@.len() && row_at_stop(#[trigger] rows@[k2], #[trigger] stops@[i2])
                            implies exists|a: int| 0 <= a < anchors@.len() && anchor_of(#[trigger] anchors@[a], rows@[k2].chateau@, rows@[k2].direction_pattern_id@) by {
                            let a = choose|a: int| 0 <= a < old_anchors.len() && anchor_of(#[trigger] old_anchors[a], rows@[k2].chateau@, rows@[k2].direction_pattern_id@);
                            assert(anchors@[a] == old_anchors[a]);
                        }
                        assert forall|k2: int| 0 <= k2 <= k && row_at_stop(#[trigger] rows@[k2], stops@[i as int])
                            implies exists|a: int| 0 <= a < anchors@.len() && anchor_of(#[trigger] anchors@[a], rows@[k2].chateau@, rows@[k2].direction_pattern_id@) by {
                            if k2 < k {
                                let a = choose|a: int| 0 <= a < old_anchors.len() && anchor_of(#[trigger] old_anchors[a], rows@[k2].chateau@, rows@[k2].direction_pattern_id@);
                                assert(anchors@[a] == old_anchors[a]);
                            } else {
                                assert(anchor_of(anchors@[old_anchors.len() as int], rows@[k2].chateau@, rows@[k2].direction_pattern_id@));
                            }
                        }
                    }
                }
            }
            k = k + 1;
        }
        i = i + 1;
    }
    anchors
}

/// Stops in ascending order of distance.
pub open spec fn sorted_by_distance(stops: Seq<NearbyStop>) -> bool {
    forall|a: int, b: int| 0 <= a <= b < stops.len() ==> #[trigger] stops[a].distance_mm <= #[trigger] stops[b].distance_mm
}

/// Over a distance-sorted stop list, each direction pattern's anchor is at
/// least as near as every stop in the list that lies on that pattern.
pub proof fn lemma_anchor_is_nearest(stops: Seq<NearbyStop>, rows: Seq<DirectionPatternRow>, anchors: Seq<AnchorStop>, a: int, j: int)
    requires
        sorted_by_distance(stops),
        anchors_first_wins(stops, rows, anchors),
        0 <= a < anchors.len(),
        0 <= j < stops.len(),
        serves(rows, stops[j], anchors[a].chateau@, anchors[a].direction_pattern_id@),
    ensures
        anchors[a].distance_mm <= stops[j].distance_mm,
{
    let (i, k) = choose|i: int, k: int| anchored_at(stops, rows, anchors[a], i, k);
    reveal(anchored_at);
    if j < i {
        assert(!serves(rows, stops[j], anchors[a].chateau@, anchors[a].direction_pattern_id@));
    } else {
        assert(stops[i].distance_mm <= stops[j].distance_mm);
    }
}

/// Orders stops by distance to the query point, nearest first.
pub fn sort_stops_by_distance(stops: Vec<NearbyStop>) -> (r: Vec<NearbyStop>)
    ensures
        sorted_by_distance(r@),
        r@.to_multiset() == stops@.to_multiset(),
{
    let ghost input = stops@;
    let mut rest = stops;
    let mut out: Vec<NearbyStop> = Vec::new();
    broadcast use group_to_multiset_ensures, to_multiset_insert, group_multiset_axioms;
    assert(out@.to_multiset() =~= Multiset::empty());
    assert(out@.to_multiset().add(rest@.to_multiset()) =~= input.to_multiset());
    while rest.len() > 0
        invariant
            sorted_by_distance(out@),
            out@.to_multiset().add(rest@.to_multiset()) == input.to_multiset(),
        decreases rest@.len(),
    {
        let ghost before_rest = rest@;
        let x = rest.pop().unwrap();
        assert(before_rest == rest@.push(x));
        let key = x.distance_mm;
        let mut p: usize = 0;
        while p < out.len() && out[p].distance_mm <= key
            invariant
                0 <= p <= out@.len(),
                forall|j: int| 0 <= j < p ==> (#[trigger] out@[j]).distance_mm <= key,
            decreases out@.len() - p,
        {
            p = p + 1;
        }
        let ghost before = out@;
        out.insert(p, x);
        proof {
            assert(out@ == before.insert(p as int, x));
            assert forall|a: int, b: int| 0 <= a <= b < out@.len() implies #[trigger] out@[a].distance_mm <= #[trigger] out@[b].distance_mm by {
                if a < p && b < p {
                } else if a < p && b == p {
                } else if a < p {
                    assert(out@[b] == before[b - 1]);
                } else if a == p && b > p {
                    assert(out@[b] == before[b - 1]);
                    assert(before[p as int].distance_mm > key);
                    assert(before[p as int].distance_mm <= before[b - 1].distance_mm);
                } else if a > p {
                    assert(out@[a] == before[a - 1]);
                    assert(out@[b] == before[b - 1]);
                }
            }
            to_multiset_insert(before, p as int, x);
            to_multiset_build(rest@, x);
            assert(out@.to_multiset().add(rest@.to_multiset()) =~= before.to_multiset().add(before_rest.to_multiset()));
        }
    }
    assert(rest@ =~= Seq::<NearbyStop>::empty());
    assert(rest@.to_multiset() =~= Multiset::empty());
    assert(out@.to_multiset().add(rest@.to_multiset()) =~= out@.to_multiset());
    out
}

/// Some row of partition `chateau` belongs to itinerary pattern `id`.
pub open spec fn names_itinerary(rows: Seq<crate::expand::ItineraryPatternRowNearbyLookup>, chateau: Seq<char>, id: Seq<char>) -> bool {
    exists|k: int| 0 <= k < rows.len() && (#[trigger] rows[k]).chateau@ == chateau && rows[k].itinerary_pattern_id@ == id
}

/// The distinct itinerary pattern ids of partition `chateau` among `rows`.
pub fn itinerary_ids_for(rows: &Vec<crate::expand::ItineraryPatternRowNearbyLookup>, chateau: &String) -> (r: Vec<String>)
    ensures
        forall|a: int, b: int| 0 <= a < b < r@.len() ==> (#[trigger] r@[a])@ != (#[trigger] r@[b])@,
        forall|a: int| 0 <= a < r@.len() ==> names_itinerary(rows@, chateau@, (#[trigger] r@[a])@),
        forall|k: int| 0 <= k < rows@.len() && (#[trigger] rows@[k]).chateau@ == chateau@
            ==> exists|a: int| 0 <= a < r@.len() && (#[trigger] r@[a])@ == rows@[k].itinerary_pattern_id@,
{
    let mut out: Vec<String> = Vec::new();
    let mut i: usize = 0;
    while i < rows.len()
        invariant
            0 <= i <= rows@.len(),
            forall|a: int, b: int| 0 <= a < b < out@.len() ==> (#[trigger] out@[a])@ != (#[trigger] out@[b])@,
            forall|a: int| 0 <= a < out@.len() ==> names_itinerary(rows@, chateau@, (#[trigger] out@[a])@),
            forall|k: int| 0 <= k < i && (#[trigger] rows@[k]).chateau@ == chateau@
                ==> exists|a: int| 0 <= a < out@.len() && (#[trigger] out@[a])@ == rows@[k].itinerary_pattern_id@,
        decreases rows@.len() - i,
    {
        if rows[i].chateau == *chateau {
            let id = &rows[i].itinerary_pattern_id;
            let mut j: usize = 0;
            let mut seen = false;
            while j < out.len() && !seen
                invariant
                    0 <= j <= out@.len(),
                    seen ==> j < out@.len() && out@[j as int]@ == id@,
                    !seen ==> forall|a: int| 0 <= a < j ==> (#[trigger] out@[a])@ != id@,
                decreases out@.len() - j + (if seen { 0int } else { 1int }),
            {
                if out[j] == *id {
                    seen = true;
                } else {
                    j = j + 1;
                }
            }
            if !seen {
                let ghost before = out@;
                out.push(id.clone());
                proof {
                    assert(out@[before.len() as int]@ == rows@[i as int].itinerary_pattern_id@);
                    assert forall|a: int| 0 <= a < out@.len() implies names_itinerary(rows@, chateau@, (#[trigger] out@[a])@) by {
                        if a < before.len() {
                            assert(out@[a] == before[a]);
                        } else {
                            assert(rows@[i as int].itinerary_pattern_id@ == out@[a]@);
                            assert(rows@[i as int].chateau@ == chateau@);
                        }
                    }
                    assert forall|k: int| 0 <= k < i + 1 && (#[trigger] rows@[k]).chateau@ == chateau@
                        implies exists|a: int| 0 <= a < out@.len() && (#[trigger] out@[a])@ == rows@[k].itinerary_pattern_id@ by {
                        if k < i {
                            let a = choose|a: int| 0 <= a < before.len() && (#[trigger] before[a])@ == rows@[k].itinerary_pattern_id@;
                            assert(out@[a] == before[a]);
                        } else {
                            assert(out@[before.len() as int]@ == rows@[k].itinerary_pattern_id@);
                        }
                    }
                }
            } else {
                assert(out@[j as int]@ == rows@[i as int].itinerary_pattern_id@);
            }
        }
        i = i + 1;
    }
    out
}

/// The stops of `stops` within `limit_mm` of the query point, in order.
pub open spec fn stops_within_spec(stops: Seq<NearbyStop>, limit_mm: int) -> Seq<NearbyStop>
    decreases stops.len(),
{
    if stops.len() == 0 {
        Seq::empty()
    } else {
        let prev = stops_within_spec(stops.drop_last(), limit_mm);
        if stops.last().distance_mm <= limit_mm {
            prev.push(stops.last())
        } else {
            prev
        }
    }
}

/// Keeps the stops within `limit_metres` of the query point, the limit that
/// the adaptive search settled on; their order is kept.
pub fn stops_within(stops: &Vec<NearbyStop>, limit_metres: u32) -> (r: Vec<NearbyStop>)
    ensures
        r@ == stops_within_spec(stops@, limit_metres as int * 1000),
{
    let limit_mm: u64 = limit_metres as u64 * 1000;
    let mut out: Vec<NearbyStop> = Vec::new();
    let mut i: usize = 0;
    while i < stops.len()
        invariant
            0 <= i <= stops@.len(),
            limit_mm == limit_metres as int * 1000,
            out@ == stops_within_spec(stops@.subrange(0, i as int), limit_mm as int),
        decreases stops@.len() - i,
    {
        assert(stops@.subrange(0, i as int + 1).drop_last() =~= stops@.subrange(0, i as int));
        let s = &stops[i];
        if s.distance_mm <= limit_mm {
            out.push(NearbyStop { chateau: s.chateau.clone(), stop_id: s.stop_id.clone(), distance_mm: s.distance_mm });
        }
        i = i + 1;
    }
    assert(stops@.subrange(0, stops@.len() as int) =~= stops@);
    out
}

} // verus!
